//! Round-indexed certificate store plus committee lookup.
//!
//! Conceptually a mapping from round to the set of admitted certificates and
//! from round to the committee snapshot valid for it. Once a certificate is
//! admitted for an `(author, round)` pair it is never removed or replaced,
//! and no second certificate for the same pair is admitted.

use vstd::prelude::*;

use crate::certificate::BatchCertificate;
use crate::committee::Committee;
use crate::errors::BftError;

verus! {

/// Whether `s` already holds a certificate for `(author, round)`.
pub open spec fn has_certificate(s: Seq<BatchCertificate>, author: u64, round: u64) -> bool {
    exists|i: int| 0 <= i < s.len() && s[i].author == author && s[i].round == round
}

/// The certificates of `s` that belong to `round`, in admission order.
pub open spec fn certs_in_round(s: Seq<BatchCertificate>, round: u64) -> Seq<BatchCertificate>
    decreases s.len(),
{
    if s.len() == 0 {
        Seq::empty()
    } else if s.last().round == round {
        certs_in_round(s.drop_last(), round).push(s.last())
    } else {
        certs_in_round(s.drop_last(), round)
    }
}

/// The first committee entry registered for `round`, if any.
pub open spec fn committee_for(s: Seq<(u64, Committee)>, round: u64) -> Option<Committee>
    decreases s.len(),
{
    if s.len() == 0 {
        None
    } else if s.first().0 == round {
        Some(s.first().1)
    } else {
        committee_for(s.drop_first(), round)
    }
}

/// The round-indexed store consumed by the consensus core.
pub struct Storage {
    /// The latest round this node has progressed to.
    pub round: u64,
    /// Every admitted certificate, in admission order.
    pub certificates: Vec<BatchCertificate>,
    /// The committee snapshot registered for each round.
    pub committees: Vec<(u64, Committee)>,
}

impl Storage {
    /// The store is internally consistent: at most one certificate per
    /// `(author, round)` pair, at most one committee per round, and every
    /// registered committee well formed.
    pub open spec fn wf(&self) -> bool {
        &&& forall|i: int, j: int|
            0 <= i < j < self.certificates@.len() ==> !(self.certificates@[i].author
                == self.certificates@[j].author && self.certificates@[i].round
                == self.certificates@[j].round)
        &&& forall|i: int, j: int|
            0 <= i < j < self.committees@.len() ==> self.committees@[i].0 != self.committees@[j].0
        &&& forall|i: int| 0 <= i < self.committees@.len() ==> (#[trigger] self.committees@[i]).1.wf()
    }

    /// An empty store at round zero.
    pub fn new() -> (r: Storage)
        ensures
            r.wf(),
            r.round == 0,
            r.certificates@.len() == 0,
            r.committees@.len() == 0,
    {
        Storage { round: 0, certificates: Vec::new(), committees: Vec::new() }
    }

    /// Returns the latest round this node has progressed to.
    pub fn current_round(&self) -> (r: u64)
        ensures
            r == self.round,
    {
        self.round
    }

    /// Advances the current round. Rounds only move forward.
    pub fn set_current_round(&mut self, round: u64)
        requires
            round >= old(self).round,
        ensures
            final(self).round == round,
            final(self).certificates == old(self).certificates,
            final(self).committees == old(self).committees,
    {
        self.round = round;
    }

    /// Admits a certificate. Fails exactly when a certificate for the same
    /// `(author, round)` pair is already present; on success the certificate
    /// is appended to the admission order and nothing else changes.
    pub fn insert_certificate(&mut self, certificate: BatchCertificate) -> (r: Result<
        (),
        BftError,
    >)
        requires
            old(self).wf(),
        ensures
            final(self).wf(),
            r is Ok <==> !has_certificate(
                old(self).certificates@,
                certificate.author,
                certificate.round,
            ),
            r is Ok ==> final(self).certificates@ == old(self).certificates@.push(certificate),
            r is Err ==> *final(self) == *old(self) && r == Err::<(), BftError>(
                BftError::DuplicateCertificate,
            ),
            final(self).round == old(self).round,
            final(self).committees == old(self).committees,
    {
        let n = self.certificates.len();
        let mut i: usize = 0;
        while i < n
            invariant
                0 <= i <= n,
                n == self.certificates@.len(),
                self.wf(),
                *self == *old(self),
                forall|j: int|
                    0 <= j < i ==> !(self.certificates@[j].author == certificate.author
                        && self.certificates@[j].round == certificate.round),
            decreases n - i,
        {
            if self.certificates[i].author == certificate.author && self.certificates[i].round
                == certificate.round {
                return Err(BftError::DuplicateCertificate);
            }
            i += 1;
        }
        self.certificates.push(certificate);
        Ok(())
    }

    /// Returns the certificates admitted for `round`, in admission order.
    /// The empty result is a valid outcome meaning none were observed yet.
    pub fn get_certificates_for_round(&self, round: u64) -> (r: Vec<BatchCertificate>)
        ensures
            r@ == certs_in_round(self.certificates@, round),
    {
        proof {
            assert(self.certificates@.take(0) =~= Seq::<BatchCertificate>::empty());
        }
        let n = self.certificates.len();
        let mut result: Vec<BatchCertificate> = Vec::new();
        let mut i: usize = 0;
        while i < n
            invariant
                0 <= i <= n,
                n == self.certificates@.len(),
                result@ == certs_in_round(self.certificates@.take(i as int), round),
            decreases n - i,
        {
            proof {
                assert(self.certificates@.take(i as int + 1).drop_last() =~= self.certificates@.take(
                    i as int,
                ));
                assert(self.certificates@.take(i as int + 1).last() == self.certificates@[i as int]);
            }
            if self.certificates[i].round == round {
                result.push(self.certificates[i]);
            }
            i += 1;
        }
        proof {
            assert(self.certificates@.take(n as int) =~= self.certificates@);
        }
        result
    }

    /// Registers the committee snapshot for `round`. Fails exactly when a
    /// snapshot for that round is already registered.
    pub fn insert_committee(&mut self, round: u64, committee: Committee) -> (r: Result<
        (),
        BftError,
    >)
        requires
            old(self).wf(),
            committee.wf(),
        ensures
            final(self).wf(),
            r is Ok <==> committee_for(old(self).committees@, round) is None,
            r is Ok ==> final(self).committees@ == old(self).committees@.push((round, committee)),
            r is Err ==> *final(self) == *old(self) && r == Err::<(), BftError>(
                BftError::DuplicateCommittee,
            ),
            final(self).round == old(self).round,
            final(self).certificates == old(self).certificates,
    {
        proof {
            assert(self.committees@.skip(0) =~= self.committees@);
        }
        let n = self.committees.len();
        let mut i: usize = 0;
        while i < n
            invariant
                0 <= i <= n,
                n == self.committees@.len(),
                self.wf(),
                *self == *old(self),
                committee_for(self.committees@, round) == committee_for(
                    self.committees@.skip(i as int),
                    round,
                ),
                forall|j: int| 0 <= j < i ==> self.committees@[j].0 != round,
            decreases n - i,
        {
            proof {
                assert(self.committees@.skip(i as int).first() == self.committees@[i as int]);
                assert(self.committees@.skip(i as int).drop_first() =~= self.committees@.skip(
                    i as int + 1,
                ));
            }
            if self.committees[i].0 == round {
                return Err(BftError::DuplicateCommittee);
            }
            i += 1;
        }
        proof {
            assert(self.committees@.skip(n as int) =~= Seq::<(u64, Committee)>::empty());
        }
        self.committees.push((round, committee));
        Ok(())
    }

    /// Looks up the committee snapshot registered for `round`. `None` means
    /// the snapshot is unknown: recoverable for the node, fatal for the
    /// operation that needed it.
    pub fn get_committee(&self, round: u64) -> (r: Option<&Committee>)
        requires
            self.wf(),
        ensures
            match r {
                Some(c) => committee_for(self.committees@, round) == Some(*c) && c.wf(),
                None => committee_for(self.committees@, round) is None,
            },
    {
        proof {
            assert(self.committees@.skip(0) =~= self.committees@);
        }
        let n = self.committees.len();
        let mut i: usize = 0;
        while i < n
            invariant
                0 <= i <= n,
                n == self.committees@.len(),
                self.wf(),
                committee_for(self.committees@, round) == committee_for(
                    self.committees@.skip(i as int),
                    round,
                ),
            decreases n - i,
        {
            proof {
                assert(self.committees@.skip(i as int).first() == self.committees@[i as int]);
                assert(self.committees@.skip(i as int).drop_first() =~= self.committees@.skip(
                    i as int + 1,
                ));
            }
            if self.committees[i].0 == round {
                return Some(&self.committees[i].1);
            }
            i += 1;
        }
        proof {
            assert(self.committees@.skip(n as int) =~= Seq::<(u64, Committee)>::empty());
        }
        None
    }
}

/// Every certificate selected for a round belongs to that round and occurs
/// in the underlying sequence.
pub proof fn lemma_certs_in_round_members(s: Seq<BatchCertificate>, round: u64)
    ensures
        forall|j: int|
            #![trigger certs_in_round(s, round)[j]]
            0 <= j < certs_in_round(s, round).len() ==> certs_in_round(s, round)[j].round == round
                && exists|p: int| 0 <= p < s.len() && s[p] == certs_in_round(s, round)[j],
    decreases s.len(),
{
    if s.len() > 0 {
        lemma_certs_in_round_members(s.drop_last(), round);
        let cs = certs_in_round(s, round);
        let csd = certs_in_round(s.drop_last(), round);
        assert forall|j: int| #![trigger cs[j]] 0 <= j < cs.len() implies cs[j].round == round
            && exists|p: int| 0 <= p < s.len() && s[p] == cs[j] by {
            if j < csd.len() {
                assert(cs[j] == csd[j]);
                let p = choose|p: int| 0 <= p < s.drop_last().len() && s.drop_last()[p] == csd[j];
                assert(s[p] == cs[j]);
            } else {
                assert(s.last().round == round && cs[j] == s.last());
                assert(s[s.len() - 1] == cs[j]);
            }
        }
    }
}

/// On a sequence with at most one certificate per `(author, round)` pair,
/// the certificates of one round carry pairwise-distinct authors.
pub proof fn lemma_certs_in_round_distinct_authors(s: Seq<BatchCertificate>, round: u64)
    requires
        forall|a: int, b: int|
            0 <= a < b < s.len() ==> !(s[a].author == s[b].author && s[a].round == s[b].round),
    ensures
        forall|a: int, b: int|
            0 <= a < b < certs_in_round(s, round).len() ==> certs_in_round(s, round)[a].author
                != certs_in_round(s, round)[b].author,
    decreases s.len(),
{
    if s.len() > 0 {
        assert(forall|a: int, b: int|
            0 <= a < b < s.drop_last().len() ==> !((#[trigger] s.drop_last()[a]).author == (
            #[trigger] s.drop_last()[b]).author && s.drop_last()[a].round
                == s.drop_last()[b].round)) by {
            assert(forall|a: int| 0 <= a < s.drop_last().len() ==> s.drop_last()[a] == s[a]);
        }
        lemma_certs_in_round_distinct_authors(s.drop_last(), round);
        lemma_certs_in_round_members(s.drop_last(), round);
        let cs = certs_in_round(s, round);
        let csd = certs_in_round(s.drop_last(), round);
        assert forall|a: int, b: int| 0 <= a < b < cs.len() implies cs[a].author
            != cs[b].author by {
            if b < csd.len() {
                assert(cs[a] == csd[a] && cs[b] == csd[b]);
            } else {
                assert(s.last().round == round);
                assert(cs[b] == s.last());
                assert(cs[a] == csd[a]);
                assert(csd[a].round == round);
                let p = choose|p: int| 0 <= p < s.drop_last().len() && s.drop_last()[p] == csd[a];
                assert(s[p] == csd[a]);
                assert(p < s.len() - 1);
                if csd[a].author == s.last().author {
                    assert(s[p].author == s[s.len() - 1].author && s[p].round == s[s.len()
                        - 1].round);
                }
            }
        }
    }
}

} // verus!
