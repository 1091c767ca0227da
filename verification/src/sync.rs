//! The state of a peer at the start of gossip.
use vstd::prelude::*;

verus! {

/// For each member of a population, the number of its events that a peer
/// holds.
#[derive(Debug, PartialEq, Eq, Hash)]
pub struct SyncState {
    seq: Vec<u32>,
}

impl SyncState {
    /// The numbers of events, one for each member.
    pub closed spec fn seqs(&self) -> Seq<u32> {
        self.seq@
    }

    /// The invariant: the population can be counted in 32 bits.
    pub open spec fn wf(&self) -> bool {
        self.seqs().len() <= u32::MAX
    }

    /// The state of a peer that holds no event of a population of
    /// `population` members.
    pub fn genesis(population: u32) -> (out: SyncState)
        ensures
            out.wf(),
            out.seqs() == Seq::new(population as nat, |i: int| 0u32),
    {
        let mut seq: Vec<u32> = Vec::new();
        let mut i: u32 = 0;
        while i < population
            invariant
                i <= population,
                seq@ == Seq::new(i as nat, |j: int| 0u32),
            decreases population - i,
        {
            seq.push(0);
            assert(seq@ =~= Seq::new((i + 1) as nat, |j: int| 0u32));
            i += 1;
        }
        SyncState { seq }
    }

    /// The size of the population.
    pub fn population(&self) -> (n: u32)
        requires
            self.wf(),
        ensures
            n == self.seqs().len(),
    {
        self.seq.len() as u32
    }
}

impl Clone for SyncState {
    fn clone(&self) -> (out: SyncState)
        ensures
            out.seqs() == self.seqs(),
    {
        let mut seq: Vec<u32> = Vec::new();
        let mut i: usize = 0;
        while i < self.seq.len()
            invariant
                i <= self.seq@.len(),
                seq@ == self.seq@.subrange(0, i as int),
            decreases self.seq@.len() - i,
        {
            seq.push(self.seq[i]);
            assert(seq@ =~= self.seq@.subrange(0, i + 1));
            i += 1;
        }
        assert(seq@ =~= self.seq@);
        SyncState { seq }
    }
}

} // verus!
