//! Batch certificates: authenticated, round-scoped vouching statements.
//!
//! A certificate states that `author` vouches for the batch with `digest` in
//! round `round`. A well-formed DAG holds at most one certificate per
//! `(author, round)` pair; the cryptographic content is reduced to the plain
//! values this layer reads.

use vstd::prelude::*;

verus! {

/// An authenticated statement: `author` vouches for the batch `digest` in
/// round `round`.
#[derive(Clone, Copy, PartialEq, Eq, Structural, Debug)]
pub struct BatchCertificate {
    /// The identity of the certificate's author.
    pub author: u64,
    /// The round this certificate belongs to.
    pub round: u64,
    /// The digest of the batch being vouched for.
    pub digest: u64,
}

impl BatchCertificate {
    /// Builds a certificate from its parts.
    pub fn new(author: u64, round: u64, digest: u64) -> (r: Self)
        ensures
            r.author == author,
            r.round == round,
            r.digest == digest,
    {
        BatchCertificate { author, round, digest }
    }

    /// Returns the author identity.
    pub fn author(&self) -> (r: u64)
        ensures
            r == self.author,
    {
        self.author
    }

    /// Returns the round number.
    pub fn round(&self) -> (r: u64)
        ensures
            r == self.round,
    {
        self.round
    }

    /// Returns the batch digest.
    pub fn digest(&self) -> (r: u64)
        ensures
            r == self.digest,
    {
        self.digest
    }
}

/// The first certificate in `s` authored by `author`, if any.
pub open spec fn find_author(s: Seq<BatchCertificate>, author: u64) -> Option<BatchCertificate>
    decreases s.len(),
{
    if s.len() == 0 {
        None
    } else if s.first().author == author {
        Some(s.first())
    } else {
        find_author(s.drop_first(), author)
    }
}

/// In a sequence whose authors are pairwise distinct, the scan for the
/// author of the certificate at `i` returns exactly that certificate.
pub proof fn lemma_find_author_unique(s: Seq<BatchCertificate>, i: int)
    requires
        0 <= i < s.len(),
        forall|a: int, b: int| 0 <= a < b < s.len() ==> s[a].author != s[b].author,
    ensures
        find_author(s, s[i].author) == Some(s[i]),
    decreases s.len(),
{
    if i == 0 {
        assert(s.first() == s[0]);
    } else {
        assert(s.first().author != s[i].author);
        assert(forall|a: int, b: int|
            0 <= a < b < s.drop_first().len() ==> s.drop_first()[a].author
                != s.drop_first()[b].author) by {
            assert(forall|a: int|
                0 <= a < s.drop_first().len() ==> s.drop_first()[a] == s[a + 1]);
        }
        assert(s.drop_first()[i - 1] == s[i]);
        lemma_find_author_unique(s.drop_first(), i - 1);
    }
}

/// Scans `certificates` in order and returns the first one authored by
/// `author`, or `None` when the author is absent.
pub fn find_certificate_by_author(certificates: &Vec<BatchCertificate>, author: u64) -> (r: Option<
    BatchCertificate,
>)
    ensures
        r == find_author(certificates@, author),
{
    proof {
        assert(certificates@.skip(0) =~= certificates@);
    }
    let mut i: usize = 0;
    while i < certificates.len()
        invariant
            i <= certificates@.len(),
            find_author(certificates@, author) == find_author(
                certificates@.skip(i as int),
                author,
            ),
        decreases certificates@.len() - i,
    {
        proof {
            assert(certificates@.skip(i as int).first() == certificates@[i as int]);
            assert(certificates@.skip(i as int).drop_first() =~= certificates@.skip(i as int + 1));
        }
        if certificates[i].author == author {
            return Some(certificates[i]);
        }
        i += 1;
    }
    proof {
        assert(certificates@.skip(i as int) =~= Seq::<BatchCertificate>::empty());
    }
    None
}

} // verus!
