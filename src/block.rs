use vstd::prelude::*;

verus! {

/// A round of the DAG.
pub type Round = u32;

/// The index of an authority within the committee.
pub type AuthorityIndex = u32;

/// The sentinel round below every real block; it is never committed.
pub const GENESIS_ROUND: Round = 0;

/// A candidate leader position: one authority at one round.
#[derive(Clone, Copy, Debug, PartialEq, Eq, Structural)]
pub struct Slot {
    pub round: Round,
    pub authority: AuthorityIndex,
}

impl Slot {
    pub fn new(round: Round, authority: AuthorityIndex) -> (s: Slot)
        ensures
            s.round == round,
            s.authority == authority,
    {
        Slot { round, authority }
    }
}

/// A node of the DAG. `parents` lists the authorities whose blocks of the
/// previous round this block references; `digest` tells apart two blocks that
/// one authority produced at the same round.
#[derive(Debug, PartialEq, Eq)]
pub struct Block {
    pub round: Round,
    pub author: AuthorityIndex,
    pub digest: u64,
    pub parents: Vec<AuthorityIndex>,
}

/// The mathematical content of a block.
pub struct BlockView {
    pub round: Round,
    pub author: AuthorityIndex,
    pub digest: u64,
    pub parents: Seq<AuthorityIndex>,
}

impl BlockView {
    pub open spec fn slot(self) -> Slot {
        Slot { round: self.round, authority: self.author }
    }
}

impl View for Block {
    type V = BlockView;

    open spec fn view(&self) -> BlockView {
        BlockView { round: self.round, author: self.author, digest: self.digest, parents: self.parents@ }
    }
}

impl Clone for Block {
    fn clone(&self) -> (r: Self)
        ensures
            r@ == self@,
    {
        let parents = self.parents.clone();
        proof {
            assert(parents@ =~= self.parents@);
        }
        Block { round: self.round, author: self.author, digest: self.digest, parents }
    }
}

impl Block {
    pub fn new(round: Round, author: AuthorityIndex, digest: u64, parents: Vec<AuthorityIndex>) -> (b: Block)
        ensures
            b.round == round,
            b.author == author,
            b.digest == digest,
            b.parents@ == parents@,
    {
        Block { round, author, digest, parents }
    }

    pub fn slot(&self) -> (s: Slot)
        ensures
            s == self@.slot(),
    {
        Slot { round: self.round, authority: self.author }
    }

    /// Whether this block references the previous-round block of `authority`.
    pub fn references(&self, authority: AuthorityIndex) -> (r: bool)
        ensures
            r == self.parents@.contains(authority),
    {
        let mut i: usize = 0;
        while i < self.parents.len()
            invariant
                i <= self.parents.len(),
                forall|k: int| 0 <= k < i ==> self.parents@[k] != authority,
            decreases self.parents.len() - i,
        {
            if self.parents[i] == authority {
                return true;
            }
            i = i + 1;
        }
        false
    }
}

/// The verdict of the commit rule on one leader slot.
#[derive(Debug, PartialEq, Eq)]
pub enum LeaderStatus {
    Commit(Block),
    Skip(Slot),
    Undecided(Slot),
}

/// The mathematical content of a `LeaderStatus`.
pub enum StatusView {
    Commit(BlockView),
    Skip(Slot),
    Undecided(Slot),
}

impl StatusView {
    pub open spec fn round(self) -> Round {
        match self {
            StatusView::Commit(b) => b.round,
            StatusView::Skip(s) => s.round,
            StatusView::Undecided(s) => s.round,
        }
    }

    pub open spec fn slot(self) -> Slot {
        match self {
            StatusView::Commit(b) => b.slot(),
            StatusView::Skip(s) => s,
            StatusView::Undecided(s) => s,
        }
    }

    pub open spec fn is_decided(self) -> bool {
        !(self is Undecided)
    }

    pub open spec fn decided(self) -> Option<DecidedView> {
        match self {
            StatusView::Commit(b) => Some(DecidedView::Commit(b)),
            StatusView::Skip(s) => Some(DecidedView::Skip(s)),
            StatusView::Undecided(_) => None,
        }
    }
}

impl View for LeaderStatus {
    type V = StatusView;

    open spec fn view(&self) -> StatusView {
        match self {
            LeaderStatus::Commit(b) => StatusView::Commit(b@),
            LeaderStatus::Skip(s) => StatusView::Skip(*s),
            LeaderStatus::Undecided(s) => StatusView::Undecided(*s),
        }
    }
}

impl LeaderStatus {

    pub fn round(&self) -> (r: Round)
        ensures
            r == self@.round(),
    {
        match self {
            LeaderStatus::Commit(b) => b.round,
            LeaderStatus::Skip(s) => s.round,
            LeaderStatus::Undecided(s) => s.round,
        }
    }

    pub fn is_decided(&self) -> (r: bool)
        ensures
            r == self@.is_decided(),
    {
        match self {
            LeaderStatus::Undecided(_) => false,
            _ => true,
        }
    }

    /// The externally visible form of a decided status.
    pub fn into_decided_leader(self) -> (r: Option<DecidedLeader>)
        ensures
            match r {
                Some(d) => self@.decided() == Some(d@),
                None => self@.decided() is None,
            },
    {
        match self {
            LeaderStatus::Commit(b) => Some(DecidedLeader::Commit(b)),
            LeaderStatus::Skip(s) => Some(DecidedLeader::Skip(s)),
            LeaderStatus::Undecided(_) => None,
        }
    }
}

/// A leader slot the commit rule has settled.
#[derive(Debug, PartialEq, Eq)]
pub enum DecidedLeader {
    Commit(Block),
    Skip(Slot),
}

/// The mathematical content of a `DecidedLeader`.
pub enum DecidedView {
    Commit(BlockView),
    Skip(Slot),
}

impl DecidedView {
    pub open spec fn slot(self) -> Slot {
        match self {
            DecidedView::Commit(b) => b.slot(),
            DecidedView::Skip(s) => s,
        }
    }
}

impl View for DecidedLeader {
    type V = DecidedView;

    open spec fn view(&self) -> DecidedView {
        match self {
            DecidedLeader::Commit(b) => DecidedView::Commit(b@),
            DecidedLeader::Skip(s) => DecidedView::Skip(*s),
        }
    }
}

impl Clone for DecidedLeader {
    fn clone(&self) -> (r: Self)
        ensures
            r@ == self@,
    {
        match self {
            DecidedLeader::Commit(b) => DecidedLeader::Commit(b.clone()),
            DecidedLeader::Skip(s) => DecidedLeader::Skip(*s),
        }
    }
}

impl DecidedLeader {

    pub fn slot(&self) -> (s: Slot)
        ensures
            s == self@.slot(),
    {
        match self {
            DecidedLeader::Commit(b) => b.slot(),
            DecidedLeader::Skip(s) => *s,
        }
    }

    pub fn round(&self) -> (r: Round)
        ensures
            r == self@.slot().round,
    {
        match self {
            DecidedLeader::Commit(b) => b.round,
            DecidedLeader::Skip(s) => s.round,
        }
    }
}

/// How a leader was decided.
#[derive(Clone, Copy, Debug, PartialEq, Eq, Structural)]
pub enum Decision {
    Direct,
    Indirect,
    Synced,
}

/// An externally authenticated commit, used to catch up without running the
/// commit rule: its position in the commit sequence and its leader block.
#[derive(Clone, Copy, Debug, PartialEq, Eq, Structural)]
pub struct TrustedCommit {
    pub index: u64,
    pub leader: Slot,
    pub leader_digest: u64,
}

impl TrustedCommit {
    pub fn new(index: u64, leader: Slot, leader_digest: u64) -> (c: TrustedCommit)
        ensures
            c.index == index,
            c.leader == leader,
            c.leader_digest == leader_digest,
    {
        TrustedCommit { index, leader, leader_digest }
    }
}

} // verus!
