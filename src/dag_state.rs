use vstd::prelude::*;
use crate::block::{AuthorityIndex, Block, BlockView, Round, Slot};
use crate::committee::Committee;

verus! {

/// The highest round among `blocks`, or the genesis round when there is none.
pub open spec fn max_round(blocks: Seq<Block>) -> Round
    decreases blocks.len(),
{
    if blocks.len() == 0 {
        0
    } else {
        let rest = max_round(blocks.drop_last());
        if blocks.last().round > rest {
            blocks.last().round
        } else {
            rest
        }
    }
}

/// The blocks of `blocks` that stand at `slot`, in order.
pub open spec fn at_slot(blocks: Seq<Block>, slot: Slot) -> Seq<BlockView>
    decreases blocks.len(),
{
    if blocks.len() == 0 {
        Seq::empty()
    } else {
        let rest = at_slot(blocks.drop_last(), slot);
        if blocks.last()@.slot() == slot {
            rest.push(blocks.last()@)
        } else {
            rest
        }
    }
}

pub proof fn lemma_at_slot_len(blocks: Seq<Block>, slot: Slot)
    ensures
        at_slot(blocks, slot).len() <= blocks.len(),
    decreases blocks.len(),
{
    if blocks.len() > 0 {
        lemma_at_slot_len(blocks.drop_last(), slot);
    }
}

/// The last of `blocks` with the given slot and digest.
pub open spec fn lookup(blocks: Seq<Block>, slot: Slot, digest: u64) -> Option<BlockView>
    decreases blocks.len(),
{
    if blocks.len() == 0 {
        None
    } else if blocks.last()@.slot() == slot && blocks.last().digest == digest {
        Some(blocks.last()@)
    } else {
        lookup(blocks.drop_last(), slot, digest)
    }
}

/// Whether some authority in `parents` is marked.
pub fn any_marked(parents: &Vec<AuthorityIndex>, marks: &Vec<bool>) -> (r: bool)
    requires
        forall|k: int| 0 <= k < parents@.len() ==> parents@[k] < marks@.len(),
        marks@.len() <= u32::MAX,
    ensures
        r == exists|p: int| 0 <= p < marks@.len() && parents@.contains(p as AuthorityIndex) && marks@[p],
{
    let mut i: usize = 0;
    while i < parents.len()
        invariant
            i <= parents.len(),
            forall|k: int| 0 <= k < parents@.len() ==> parents@[k] < marks@.len(),
            marks@.len() <= u32::MAX,
            forall|k: int| 0 <= k < i ==> !marks@[parents@[k] as int],
        decreases parents.len() - i,
    {
        if marks[parents[i] as usize] {
            proof {
                let p = parents@[i as int] as int;
                assert(parents@[i as int] == p as AuthorityIndex);
                assert(parents@.contains(p as AuthorityIndex));
            }
            return true;
        }
        i = i + 1;
    }
    proof {
        assert forall|p: int| 0 <= p < marks@.len() && parents@.contains(p as AuthorityIndex) implies !marks@[p] by {
            let k = choose|k: int| 0 <= k < parents@.len() && parents@[k] == p as AuthorityIndex;
            assert(parents@[k] as int == p);
        }
    }
    false
}

/// A snapshot of the accepted blocks, read consistently for one decision pass.
pub struct DagState {
    pub committee: Committee,
    pub blocks: Vec<Block>,
    pub last_commit_index: u64,
    pub gc_enabled: bool,
}

impl DagState {
    pub open spec fn n(&self) -> int {
        self.committee.stakes@.len() as int
    }

    /// Every author and every referenced authority belongs to the committee.
    pub open spec fn wf(&self) -> bool {
        &&& self.committee.wf()
        &&& forall|j: int|
            0 <= j < self.blocks@.len() ==> (#[trigger] self.blocks@[j]).author < self.n()
        &&& forall|j: int, k: int|
            0 <= j < self.blocks@.len() && 0 <= k < self.blocks@[j].parents@.len()
                ==> #[trigger] self.blocks@[j].parents@[k] < self.n()
    }

    pub open spec fn highest_round(&self) -> Round {
        max_round(self.blocks@)
    }

    /// The block at `slot`, when exactly one was accepted there; two or more
    /// count as none, for an equivocating leader leads nothing.
    pub open spec fn leader_block(&self, slot: Slot) -> Option<BlockView> {
        let c = at_slot(self.blocks@, slot);
        if c.len() == 1 {
            Some(c[0])
        } else {
            None
        }
    }

    /// Whether authority `a` produced a block at round `r` that satisfies `q`
    /// (`q` is indexed like the blocks).
    pub open spec fn produced_with(&self, r: int, a: int, q: Seq<bool>) -> bool {
        exists|j: int|
            0 <= j < self.blocks@.len() && (#[trigger] self.blocks@[j]).round == r
                && self.blocks@[j].author == a && q[j]
    }

    /// Whether some block at round `r` that satisfies `q` references authority `p`.
    pub open spec fn referenced_with(&self, r: int, p: int, q: Seq<bool>) -> bool {
        exists|j: int|
            0 <= j < self.blocks@.len() && (#[trigger] self.blocks@[j]).round == r && q[j]
                && self.blocks@[j].parents@.contains(p as AuthorityIndex)
    }

    /// The authorities with a block at round `r` that does not reference the
    /// previous-round block of `leader`.
    pub open spec fn blame_marks(&self, r: int, leader: AuthorityIndex) -> Seq<bool> {
        Seq::new(
            self.n() as nat,
            |a: int|
                exists|j: int|
                    0 <= j < self.blocks@.len() && (#[trigger] self.blocks@[j]).round == r
                        && self.blocks@[j].author == a && !self.blocks@[j].parents@.contains(leader),
        )
    }

    /// For each authority, whether its block at round `r` has an ancestry that
    /// reaches the leader slot: at the round after the leader by a direct
    /// reference, above it through a parent that itself supports the leader.
    pub open spec fn support_set(&self, leader: Slot, r: int) -> Seq<bool>
        decreases r - leader.round,
    {
        if r <= leader.round + 1 {
            Seq::new(
                self.n() as nat,
                |a: int|
                    exists|j: int|
                        0 <= j < self.blocks@.len() && (#[trigger] self.blocks@[j]).round == r
                            && self.blocks@[j].author == a
                            && self.blocks@[j].parents@.contains(leader.authority),
            )
        } else {
            let below = self.support_set(leader, r - 1);
            Seq::new(
                self.n() as nat,
                |a: int|
                    exists|j: int|
                        0 <= j < self.blocks@.len() && (#[trigger] self.blocks@[j]).round == r
                            && self.blocks@[j].author == a && exists|p: int|
                            0 <= p < self.n() && self.blocks@[j].parents@.contains(p as AuthorityIndex)
                                && #[trigger] below[p],
            )
        }
    }

    pub open spec fn supports(&self, leader: Slot, r: int, a: int) -> bool {
        self.support_set(leader, r)[a]
    }

    /// The parents of `c` that support the leader.
    pub open spec fn supporting_parents(&self, leader: Slot, c: BlockView) -> Seq<bool> {
        Seq::new(
            self.n() as nat,
            |p: int| c.parents.contains(p as AuthorityIndex) && self.supports(leader, c.round - 1, p),
        )
    }

    /// A certificate for the leader: a block whose supporting parents hold a quorum.
    pub open spec fn is_certificate(&self, leader: Slot, c: BlockView) -> bool {
        self.committee.marked(self.supporting_parents(leader, c)) >= self.committee.quorum()
    }

    /// The authorities with a certificate for the leader at round `d`.
    pub open spec fn certificate_marks(&self, leader: Slot, d: int) -> Seq<bool> {
        Seq::new(
            self.n() as nat,
            |a: int|
                exists|j: int|
                    0 <= j < self.blocks@.len() && (#[trigger] self.blocks@[j]).round == d
                        && self.blocks@[j].author == a && self.is_certificate(leader, self.blocks@[j]@),
        )
    }

    /// For each authority, whether the ancestry of `anchor` holds its block at round `r`.
    pub open spec fn reach_set(&self, anchor: BlockView, r: int) -> Seq<bool>
        decreases anchor.round - r,
    {
        if r + 1 >= anchor.round {
            Seq::new(self.n() as nat, |p: int| r + 1 == anchor.round && anchor.parents.contains(p as AuthorityIndex))
        } else {
            let above = self.reach_set(anchor, r + 1);
            Seq::new(
                self.n() as nat,
                |p: int|
                    exists|j: int|
                        0 <= j < self.blocks@.len() && (#[trigger] self.blocks@[j]).round == r + 1
                            && above[self.blocks@[j].author as int]
                            && self.blocks@[j].parents@.contains(p as AuthorityIndex),
            )
        }
    }

    pub open spec fn reaches(&self, anchor: BlockView, r: int, p: int) -> bool {
        self.reach_set(anchor, r)[p]
    }

    pub fn new(committee: Committee, blocks: Vec<Block>, last_commit_index: u64, gc_enabled: bool) -> (d: DagState)
        ensures
            d.committee == committee,
            d.blocks@ == blocks@,
            d.last_commit_index == last_commit_index,
            d.gc_enabled == gc_enabled,
    {
        DagState { committee, blocks, last_commit_index, gc_enabled }
    }

    /// Whether the committee is valid and every block names only its members.
    pub fn is_well_formed(&self) -> (r: bool)
        ensures
            r == self.wf(),
    {
        let n = self.committee.stakes.len();
        if n == 0 || n > u32::MAX as usize {
            return false;
        }
        let mut sum: u64 = 0;
        let mut i: usize = 0;
        while i < n
            invariant
                n == self.n(),
                i <= n,
                sum == crate::committee::stake_sum(self.committee.stakes@, i as int),
            decreases n - i,
        {
            match sum.checked_add(self.committee.stakes[i]) {
                Some(t) => {
                    sum = t;
                },
                None => {
                    proof {
                        crate::committee::lemma_stake_sum_monotone(self.committee.stakes@, i + 1, n as int);
                    }
                    return false;
                },
            }
            i = i + 1;
        }
        let mut j: usize = 0;
        while j < self.blocks.len()
            invariant
                self.committee.wf(),
                n == self.n(),
                j <= self.blocks.len(),
                forall|x: int| 0 <= x < j ==> (#[trigger] self.blocks@[x]).author < n,
                forall|x: int, k: int|
                    0 <= x < j && 0 <= k < self.blocks@[x].parents@.len() ==> #[trigger] self.blocks@[x].parents@[k] < n,
            decreases self.blocks.len() - j,
        {
            let b = &self.blocks[j];
            if b.author as usize >= n {
                return false;
            }
            let mut k: usize = 0;
            while k < b.parents.len()
                invariant
                    n == self.n(),
                    j < self.blocks@.len(),
                    *b == self.blocks@[j as int],
                    k <= b.parents.len(),
                    forall|y: int| 0 <= y < k ==> b.parents@[y] < n,
                decreases b.parents.len() - k,
            {
                if b.parents[k] as usize >= n {
                    proof {
                        assert(self.blocks@[j as int].parents@[k as int] >= n);
                    }
                    return false;
                }
                k = k + 1;
            }
            j = j + 1;
        }
        true
    }

    /// The highest round of an accepted block.
    pub fn highest_accepted_round(&self) -> (r: Round)
        ensures
            r == self.highest_round(),
    {
        let mut r: Round = 0;
        let mut i: usize = 0;
        while i < self.blocks.len()
            invariant
                i <= self.blocks.len(),
                r == max_round(self.blocks@.take(i as int)),
            decreases self.blocks.len() - i,
        {
            proof {
                assert(self.blocks@.take(i + 1).drop_last() =~= self.blocks@.take(i as int));
            }
            if self.blocks[i].round > r {
                r = self.blocks[i].round;
            }
            i = i + 1;
        }
        proof {
            assert(self.blocks@.take(i as int) =~= self.blocks@);
        }
        r
    }

    /// The index of the block at `slot`, when exactly one was accepted there.
    pub fn leader_block_index(&self, slot: Slot) -> (r: Option<usize>)
        ensures
            match r {
                Some(i) => i < self.blocks@.len() && self.leader_block(slot) == Some(self.blocks@[i as int]@),
                None => self.leader_block(slot) is None,
            },
    {
        let mut count: usize = 0;
        let mut last: usize = 0;
        let mut i: usize = 0;
        while i < self.blocks.len()
            invariant
                i <= self.blocks.len(),
                count == at_slot(self.blocks@.take(i as int), slot).len(),
                count > 0 ==> last < i && at_slot(self.blocks@.take(i as int), slot).last()
                    == self.blocks@[last as int]@,
            decreases self.blocks.len() - i,
        {
            proof {
                assert(self.blocks@.take(i + 1).drop_last() =~= self.blocks@.take(i as int));
                lemma_at_slot_len(self.blocks@.take(i as int), slot);
            }
            if self.blocks[i].round == slot.round && self.blocks[i].author == slot.authority {
                count = count + 1;
                last = i;
            }
            i = i + 1;
        }
        proof {
            assert(self.blocks@.take(i as int) =~= self.blocks@);
        }
        if count == 1 {
            Some(last)
        } else {
            None
        }
    }

    /// The accepted block with the given slot and digest.
    pub fn get_block(&self, slot: Slot, digest: u64) -> (r: Option<Block>)
        ensures
            match r {
                Some(b) => lookup(self.blocks@, slot, digest) == Some(b@),
                None => lookup(self.blocks@, slot, digest) is None,
            },
    {
        let mut found: Option<usize> = None;
        let mut i: usize = 0;
        while i < self.blocks.len()
            invariant
                i <= self.blocks.len(),
                match found {
                    Some(k) => k < i && lookup(self.blocks@.take(i as int), slot, digest)
                        == Some(self.blocks@[k as int]@),
                    None => lookup(self.blocks@.take(i as int), slot, digest) is None,
                },
            decreases self.blocks.len() - i,
        {
            proof {
                assert(self.blocks@.take(i + 1).drop_last() =~= self.blocks@.take(i as int));
            }
            if self.blocks[i].round == slot.round && self.blocks[i].author == slot.authority
                && self.blocks[i].digest == digest {
                found = Some(i);
            }
            i = i + 1;
        }
        proof {
            assert(self.blocks@.take(i as int) =~= self.blocks@);
        }
        match found {
            Some(k) => Some(self.blocks[k].clone()),
            None => None,
        }
    }

    pub fn blame_marks_of(&self, r: Round, leader: AuthorityIndex) -> (m: Vec<bool>)
        requires
            self.wf(),
        ensures
            m@ == self.blame_marks(r as int, leader),
    {
        let mut q: Vec<bool> = Vec::new();
        let mut j: usize = 0;
        while j < self.blocks.len()
            invariant
                j <= self.blocks.len(),
                q@.len() == j,
                forall|k: int| 0 <= k < j ==> q@[k] == !self.blocks@[k].parents@.contains(leader),
            decreases self.blocks.len() - j,
        {
            q.push(!self.blocks[j].references(leader));
            j = j + 1;
        }
        let m = self.authors_with(r, &q);
        proof {
            assert forall|a: int| 0 <= a < self.n() implies m@[a] == self.blame_marks(r as int, leader)[a] by {
                if m@[a] {
                    let j = choose|j: int|
                        0 <= j < self.blocks@.len() && (#[trigger] self.blocks@[j]).round == r
                            && self.blocks@[j].author == a && q@[j];
                    assert(self.blocks@[j].round == r);
                }
                if self.blame_marks(r as int, leader)[a] {
                    let j = choose|j: int|
                        0 <= j < self.blocks@.len() && (#[trigger] self.blocks@[j]).round == r
                            && self.blocks@[j].author == a && !self.blocks@[j].parents@.contains(leader);
                    assert(q@[j]);
                }
            }
            assert(m@ =~= self.blame_marks(r as int, leader));
        }
        m
    }

    /// For each authority, whether it supports the leader at round `r`.
    pub fn support_marks(&self, leader: Slot, r: Round) -> (m: Vec<bool>)
        requires
            self.wf(),
            r > leader.round,
        ensures
            m@.len() == self.n(),
            forall|a: int| 0 <= a < self.n() ==> m@[a] == self.supports(leader, r as int, a),
        decreases r - leader.round,
    {
        let mut q: Vec<bool> = Vec::new();
        if r == leader.round + 1 {
            let mut j: usize = 0;
            while j < self.blocks.len()
                invariant
                    j <= self.blocks.len(),
                    q@.len() == j,
                    forall|k: int| 0 <= k < j ==> q@[k] == self.blocks@[k].parents@.contains(leader.authority),
                decreases self.blocks.len() - j,
            {
                q.push(self.blocks[j].references(leader.authority));
                j = j + 1;
            }
        } else {
            let prev = self.support_marks(leader, r - 1);
            let mut j: usize = 0;
            while j < self.blocks.len()
                invariant
                    self.wf(),
                    r > leader.round + 1,
                    prev@.len() == self.n(),
                    forall|a: int| 0 <= a < self.n() ==> prev@[a] == self.supports(leader, r - 1, a),
                    j <= self.blocks.len(),
                    q@.len() == j,
                    forall|k: int|
                        0 <= k < j ==> q@[k] == exists|p: int|
                            0 <= p < self.n() && self.blocks@[k].parents@.contains(p as AuthorityIndex)
                                && #[trigger] self.support_set(leader, r - 1)[p],
                decreases self.blocks.len() - j,
            {
                proof {
                    assert forall|k: int| 0 <= k < self.blocks@[j as int].parents@.len() implies
                        self.blocks@[j as int].parents@[k] < prev@.len() by {
                        assert(self.blocks@[j as int].parents@[k] < self.n());
                    }
                }
                let hit = any_marked(&self.blocks[j].parents, &prev);
                proof {
                    let ps = self.blocks@[j as int].parents@;
                    let below = self.support_set(leader, r - 1);
                    if hit {
                        let p = choose|p: int| 0 <= p < prev@.len() && ps.contains(p as AuthorityIndex) && prev@[p];
                        assert(below[p]);
                    }
                    if exists|p: int| 0 <= p < self.n() && ps.contains(p as AuthorityIndex) && #[trigger] below[p] {
                        let p = choose|p: int| 0 <= p < self.n() && ps.contains(p as AuthorityIndex) && #[trigger] below[p];
                        assert(prev@[p]);
                    }
                }
                q.push(hit);
                j = j + 1;
            }
        }
        let m = self.authors_with(r, &q);
        proof {
            assert forall|a: int| 0 <= a < self.n() implies m@[a] == self.supports(leader, r as int, a) by {
                if m@[a] {
                    assert(self.produced_with(r as int, a, q@));
                    let j = choose|j: int|
                        0 <= j < self.blocks@.len() && (#[trigger] self.blocks@[j]).round == r
                            && self.blocks@[j].author == a && q@[j];
                    assert(self.blocks@[j].round == r);
                }
                if self.supports(leader, r as int, a) {
                    if r == leader.round + 1 {
                        let j = choose|j: int|
                            0 <= j < self.blocks@.len() && (#[trigger] self.blocks@[j]).round == r
                                && self.blocks@[j].author == a
                                && self.blocks@[j].parents@.contains(leader.authority);
                        assert(q@[j]);
                        assert(self.produced_with(r as int, a, q@));
                    } else {
                        let below = self.support_set(leader, r - 1);
                        let j = choose|j: int|
                            0 <= j < self.blocks@.len() && (#[trigger] self.blocks@[j]).round == r
                                && self.blocks@[j].author == a && exists|p: int|
                                0 <= p < self.n() && self.blocks@[j].parents@.contains(p as AuthorityIndex)
                                    && #[trigger] below[p];
                        assert(q@[j]);
                        assert(self.produced_with(r as int, a, q@));
                    }
                }
            }
        }
        m
    }

    /// For each authority, whether it has a certificate for the leader at round `d`.
    pub fn certificate_marks_of(&self, leader: Slot, d: Round) -> (m: Vec<bool>)
        requires
            self.wf(),
            d as int >= leader.round + 2,
        ensures
            m@ == self.certificate_marks(leader, d as int),
    {
        let sup = self.support_marks(leader, d - 1);
        let n = self.committee.size_of();
        let mut q: Vec<bool> = Vec::new();
        let mut j: usize = 0;
        while j < self.blocks.len()
            invariant
                self.wf(),
                n == self.n(),
                d as int >= leader.round + 2,
                sup@.len() == n,
                forall|a: int| 0 <= a < n ==> sup@[a] == self.supports(leader, d - 1, a),
                j <= self.blocks.len(),
                q@.len() == j,
                forall|k: int|
                    0 <= k < j ==> q@[k] == (self.blocks@[k].round == d && self.is_certificate(leader, self.blocks@[k]@)),
            decreases self.blocks.len() - j,
        {
            let b = &self.blocks[j];
            if b.round == d {
                let mut pm: Vec<bool> = Vec::new();
                let mut p: usize = 0;
                while p < n
                    invariant
                        n == self.n(),
                        n <= u32::MAX,
                        b.round == d,
                        sup@.len() == n,
                        forall|a: int| 0 <= a < n ==> sup@[a] == self.supports(leader, d - 1, a),
                        p <= n,
                        pm@.len() == p,
                        forall|x: int|
                            0 <= x < p ==> pm@[x] == (b.parents@.contains(x as AuthorityIndex) && self.supports(leader, d - 1, x)),
                    decreases n - p,
                {
                    pm.push(b.references(p as AuthorityIndex) && sup[p]);
                    p = p + 1;
                }
                proof {
                    assert(pm@ =~= self.supporting_parents(leader, b@));
                }
                q.push(self.committee.reaches_quorum(&pm));
            } else {
                q.push(false);
            }
            j = j + 1;
        }
        let m = self.authors_with(d, &q);
        proof {
            assert forall|a: int| 0 <= a < self.n() implies m@[a] == self.certificate_marks(leader, d as int)[a] by {
                if m@[a] {
                    assert(self.produced_with(d as int, a, q@));
                    let j = choose|j: int|
                        0 <= j < self.blocks@.len() && (#[trigger] self.blocks@[j]).round == d
                            && self.blocks@[j].author == a && q@[j];
                    assert(self.blocks@[j].round == d);
                }
                if self.certificate_marks(leader, d as int)[a] {
                    let j = choose|j: int|
                        0 <= j < self.blocks@.len() && (#[trigger] self.blocks@[j]).round == d
                            && self.blocks@[j].author == a && self.is_certificate(leader, self.blocks@[j]@);
                    assert(q@[j]);
                    assert(self.produced_with(d as int, a, q@));
                }
            }
            assert(m@ =~= self.certificate_marks(leader, d as int));
        }
        m
    }

    /// For each authority, whether the ancestry of `anchor` holds its block at round `r`.
    pub fn reach_marks(&self, anchor: &Block, r: Round) -> (m: Vec<bool>)
        requires
            self.wf(),
            r < anchor.round,
        ensures
            m@.len() == self.n(),
            forall|p: int| 0 <= p < self.n() ==> m@[p] == self.reaches(anchor@, r as int, p),
        decreases anchor.round - r,
    {
        if r + 1 == anchor.round {
            let n = self.committee.size_of();
            let mut m: Vec<bool> = Vec::new();
            let mut p: usize = 0;
            while p < n
                invariant
                    n == self.n(),
                    n <= u32::MAX,
                    r + 1 == anchor.round,
                    p <= n,
                    m@.len() == p,
                    forall|x: int| 0 <= x < p ==> m@[x] == self.reaches(anchor@, r as int, x),
                decreases n - p,
            {
                m.push(anchor.references(p as AuthorityIndex));
                p = p + 1;
            }
            return m;
        }
        let above = self.reach_marks(anchor, r + 1);
        let mut q: Vec<bool> = Vec::new();
        let mut j: usize = 0;
        while j < self.blocks.len()
            invariant
                self.wf(),
                above@.len() == self.n(),
                forall|a: int| 0 <= a < self.n() ==> above@[a] == self.reaches(anchor@, r + 1, a),
                j <= self.blocks.len(),
                q@.len() == j,
                forall|k: int|
                    0 <= k < j ==> q@[k] == self.reaches(anchor@, r + 1, self.blocks@[k].author as int),
            decreases self.blocks.len() - j,
        {
            assert(self.blocks@[j as int].author < self.n());
            q.push(above[self.blocks[j].author as usize]);
            j = j + 1;
        }
        let m = self.referenced_by(r + 1, &q);
        proof {
            assert forall|p: int| 0 <= p < self.n() implies m@[p] == self.reaches(anchor@, r as int, p) by {
                if m@[p] {
                    let j = choose|j: int|
                        0 <= j < self.blocks@.len() && (#[trigger] self.blocks@[j]).round == r + 1 && q@[j]
                            && self.blocks@[j].parents@.contains(p as AuthorityIndex);
                    assert(self.blocks@[j].round == r + 1);
                }
                if self.reaches(anchor@, r as int, p) {
                    let above = self.reach_set(anchor@, r + 1);
                    let j = choose|j: int|
                        0 <= j < self.blocks@.len() && (#[trigger] self.blocks@[j]).round == r + 1
                            && above[self.blocks@[j].author as int]
                            && self.blocks@[j].parents@.contains(p as AuthorityIndex);
                    assert(q@[j]);
                }
            }
        }
        m
    }

    /// For each authority, whether it produced a block at round `r` that `q` selects.
    pub fn authors_with(&self, r: Round, q: &Vec<bool>) -> (m: Vec<bool>)
        requires
            self.wf(),
            q@.len() == self.blocks@.len(),
        ensures
            m@.len() == self.n(),
            forall|a: int| 0 <= a < self.n() ==> m@[a] == self.produced_with(r as int, a, q@),
    {
        let n = self.committee.size_of();
        let mut m: Vec<bool> = Vec::new();
        while m.len() < n
            invariant
                m@.len() <= n,
                n == self.n(),
                forall|a: int| 0 <= a < m@.len() ==> !m@[a],
            decreases n - m.len(),
        {
            m.push(false);
        }
        let mut i: usize = 0;
        while i < self.blocks.len()
            invariant
                self.wf(),
                q@.len() == self.blocks@.len(),
                n == self.n(),
                i <= self.blocks.len(),
                m@.len() == n,
                forall|a: int|
                    0 <= a < n ==> m@[a] == exists|j: int|
                        0 <= j < i && (#[trigger] self.blocks@[j]).round == r
                            && self.blocks@[j].author == a && q@[j],
            decreases self.blocks.len() - i,
        {
            if self.blocks[i].round == r && q[i] {
                let a = self.blocks[i].author as usize;
                assert(self.blocks@[i as int].author < self.n());
                m.set(a, true);
            }
            i = i + 1;
        }
        m
    }

    /// For each authority, whether a block at round `r` that `q` selects references it.
    pub fn referenced_by(&self, r: Round, q: &Vec<bool>) -> (m: Vec<bool>)
        requires
            self.wf(),
            q@.len() == self.blocks@.len(),
        ensures
            m@.len() == self.n(),
            forall|p: int| 0 <= p < self.n() ==> m@[p] == self.referenced_with(r as int, p, q@),
    {
        let n = self.committee.size_of();
        let mut m: Vec<bool> = Vec::new();
        let mut p: usize = 0;
        while p < n
            invariant
                self.wf(),
                q@.len() == self.blocks@.len(),
                n == self.n(),
                p <= n,
                m@.len() == p,
                forall|x: int| 0 <= x < p ==> m@[x] == self.referenced_with(r as int, x, q@),
            decreases n - p,
        {
            let mut hit = false;
            let mut i: usize = 0;
            while i < self.blocks.len()
                invariant
                    q@.len() == self.blocks@.len(),
                    i <= self.blocks.len(),
                    p < n,
                    n <= u32::MAX,
                    hit == exists|j: int|
                        0 <= j < i && (#[trigger] self.blocks@[j]).round == r && q@[j]
                            && self.blocks@[j].parents@.contains(p as AuthorityIndex),
                decreases self.blocks.len() - i,
            {
                if !hit && self.blocks[i].round == r && q[i] && self.blocks[i].references(p as AuthorityIndex) {
                    hit = true;
                }
                i = i + 1;
            }
            m.push(hit);
            p = p + 1;
        }
        m
    }
}

} // verus!
