//! Per-pool decoders: the working nullifier set.
//!
//! A decoder owns the not-yet-matched nullifiers of one shielded pool while a
//! scan is in flight. Discovery registers the new note's nullifier; a spend
//! candidate that matches removes the nullifier from the working set, so a
//! note can be reported spent at most once.

use vstd::prelude::*;

verus! {

/// The two shielded pools.
#[derive(Clone, Copy, Debug, PartialEq, Eq, Structural)]
pub enum Pool {
    Sapling,
    Orchard,
}

/// Index of the first element of `nfs` equal to `cand`, or `-1`.
pub open spec fn find_nf(nfs: Seq<Seq<u8>>, cand: Seq<u8>) -> int
    decreases nfs.len(),
{
    if nfs.len() == 0 {
        -1
    } else if nfs[0] == cand {
        0
    } else {
        let rest = find_nf(nfs.drop_first(), cand);
        if rest < 0 {
            -1
        } else {
            rest + 1
        }
    }
}

pub proof fn lemma_find_nf_props(nfs: Seq<Seq<u8>>, cand: Seq<u8>)
    ensures
        find_nf(nfs, cand) >= 0 <==> exists|i: int| 0 <= i < nfs.len() && nfs[i] == cand,
        find_nf(nfs, cand) >= 0 ==> find_nf(nfs, cand) < nfs.len() && nfs[find_nf(nfs, cand)]
            == cand,
        find_nf(nfs, cand) >= 0 ==> forall|i: int|
            0 <= i < find_nf(nfs, cand) ==> nfs[i] != cand,
    decreases nfs.len(),
{
    if nfs.len() > 0 && nfs[0] != cand {
        lemma_find_nf_props(nfs.drop_first(), cand);
        let rest = nfs.drop_first();
        if find_nf(rest, cand) >= 0 {
            assert(nfs[find_nf(rest, cand) + 1] == rest[find_nf(rest, cand)]);
            assert forall|i: int| 0 <= i < find_nf(nfs, cand) implies nfs[i] != cand by {
                if i > 0 {
                    assert(rest[i - 1] == nfs[i]);
                }
            }
        } else {
            assert forall|i: int| 0 <= i < nfs.len() implies nfs[i] != cand by {
                if i > 0 {
                    assert(rest[i - 1] == nfs[i]);
                }
            }
        }
    }
}

/// A decoder for one pool: its working nullifier set, in insertion order.
pub struct Decoder {
    pub pool: Pool,
    pub nfs: Vec<Vec<u8>>,
}

impl View for Decoder {
    type V = Seq<Seq<u8>>;

    open spec fn view(&self) -> Seq<Seq<u8>> {
        self.nfs@.map_values(|v: Vec<u8>| v@)
    }
}

impl Decoder {
    /// A fresh decoder holding the persisted not-yet-matched nullifiers of
    /// its pool.
    pub fn new(pool: Pool, nfs: Vec<Vec<u8>>) -> (r: Decoder)
        ensures
            r.pool == pool,
            r@ == nfs@.map_values(|v: Vec<u8>| v@),
    {
        Decoder { pool, nfs }
    }

    /// Registers the nullifier of a newly discovered note into the working
    /// set.
    pub fn register(&mut self, nf: Vec<u8>)
        ensures
            final(self)@ == old(self)@.push(nf@),
            final(self).pool == old(self).pool,
    {
        let ghost before = self@;
        let ghost nfv = nf@;
        self.nfs.push(nf);
        proof {
            assert(self@ =~= before.push(nfv));
        }
    }

    /// Checks a spend candidate against the working set; on a match the
    /// first matching nullifier leaves the set, and the match is reported.
    pub fn match_spend(&mut self, cand: &Vec<u8>) -> (r: bool)
        ensures
            r == (find_nf(old(self)@, cand@) >= 0),
            r ==> final(self)@ == old(self)@.remove(find_nf(old(self)@, cand@)),
            !r ==> final(self)@ == old(self)@,
            final(self).pool == old(self).pool,
    {
        let ghost before = self@;
        let mut i: usize = 0;
        while i < self.nfs.len()
            invariant
                i <= self.nfs.len(),
                *self == *old(self),
                self@ == before,
                forall|j: int| 0 <= j < i ==> before[j] != cand@,
            decreases self.nfs.len() - i,
        {
            if crate::chain::bytes_eq(&self.nfs[i], cand) {
                proof {
                    assert(before[i as int] == self.nfs@[i as int]@);
                    lemma_find_nf_props(before, cand@);
                    assert(find_nf(before, cand@) == i as int);
                }
                self.nfs.remove(i);
                proof {
                    assert(self@ =~= before.remove(i as int));
                }
                return true;
            }
            i += 1;
        }
        proof {
            lemma_find_nf_props(before, cand@);
        }
        false
    }
}

} // verus!
