//! The BFT orchestrator: leader tracking, certificate intake, lifecycle.
//!
//! The BFT instance composes a Primary (the admission path into storage),
//! tracks the leader certificate of the previous round across even-round
//! boundaries, stores delivered certificates into the commit DAG, and owns
//! the registry of background tasks that a single shutdown entry point
//! cancels.

use vstd::prelude::*;

use crate::certificate::{find_author, find_certificate_by_author, BatchCertificate};
use crate::dag::{has_node, insert_sorted, spec_commit_sequence, Dag, DagNode, NodeView};
use crate::errors::BftError;
use crate::is_even;
use crate::previous_round;
use crate::spec_previous_round;
use crate::storage::{certs_in_round, committee_for, Storage};
use crate::tasks::TaskRegistry;

verus! {

/// The admission path: validates certificates and stores them, then emits
/// each stored certificate to the BFT layer.
pub struct Primary {
    /// The round-indexed store this node maintains.
    pub storage: Storage,
    /// Whether the primary's own processing has been started.
    pub running: bool,
}

impl Primary {
    /// A primary over the given store, not yet running.
    pub fn new(storage: Storage) -> (r: Primary)
        ensures
            r.storage == storage,
            !r.running,
    {
        Primary { storage, running: false }
    }

    /// Returns the storage.
    pub fn storage(&self) -> (r: &Storage)
        ensures
            r == &self.storage,
    {
        &self.storage
    }

    /// Admits a certificate into storage. Fails exactly when a certificate
    /// for the same `(author, round)` pair was already admitted.
    pub fn admit_certificate(&mut self, certificate: BatchCertificate) -> (r: Result<(), BftError>)
        requires
            old(self).storage.wf(),
        ensures
            final(self).storage.wf(),
            final(self).running == old(self).running,
            final(self).storage.round == old(self).storage.round,
            final(self).storage.committees == old(self).storage.committees,
            r is Ok <==> !crate::storage::has_certificate(
                old(self).storage.certificates@,
                certificate.author,
                certificate.round,
            ),
            r is Ok ==> final(self).storage.certificates@ == old(self).storage.certificates@.push(certificate),
            r is Err ==> *final(self) == *old(self) && r == Err::<(), BftError>(
                BftError::DuplicateCertificate,
            ),
    {
        self.storage.insert_certificate(certificate)
    }

    /// Starts the primary. Fails exactly when it is already running.
    pub fn run(&mut self) -> (r: Result<(), BftError>)
        ensures
            r is Ok <==> !old(self).running,
            r is Ok ==> final(self).running && final(self).storage == old(self).storage,
            r is Err ==> *final(self) == *old(self) && r == Err::<(), BftError>(
                BftError::AlreadyRunning,
            ),
    {
        if self.running {
            return Err(BftError::AlreadyRunning);
        }
        self.running = true;
        Ok(())
    }

    /// Stops the primary, draining cooperatively.
    pub fn shut_down(&mut self)
        ensures
            !final(self).running,
            final(self).storage == old(self).storage,
    {
        self.running = false;
    }
}

/// A BFT state in which nothing remains runnable: the primary is stopped and
/// every tracked task has been cancelled.
pub open spec fn is_shut_down(b: BFT) -> bool {
    &&& !b.primary.running
    &&& forall|i: int| 0 <= i < b.handles.tasks@.len() ==> !b.handles.tasks@[i]
}

/// How `shut_down` relates the state before the call to the state after it.
pub open spec fn shut_down_rel(pre: BFT, post: BFT) -> bool {
    &&& !post.primary.running
    &&& post.primary.storage == pre.primary.storage
    &&& post.leader_certificate == pre.leader_certificate
    &&& post.dag == pre.dag
    &&& post.committed == pre.committed
    &&& post.handles.tasks@.len() == pre.handles.tasks@.len()
    &&& forall|i: int| 0 <= i < post.handles.tasks@.len() ==> !post.handles.tasks@[i]
}

/// The BFT instance: leader tracking and anchor commits over the certificate
/// DAG, plus the lifecycle of the long-running consensus task.
pub struct BFT {
    /// The composed primary; all storage reads are delegated to it.
    pub primary: Primary,
    /// The certificate of the previous round's leader, if one was present.
    pub leader_certificate: Option<BatchCertificate>,
    /// The certificate DAG over which anchors are committed.
    pub dag: Dag,
    /// The `(round, author)` pairs already committed, in commit order.
    pub committed: Vec<(u64, u64)>,
    /// Handles of the spawned background tasks.
    pub handles: TaskRegistry,
}

impl BFT {
    /// The instance is internally consistent.
    pub open spec fn wf(&self) -> bool {
        &&& self.primary.storage.wf()
        &&& self.dag.wf()
    }

    /// Initializes a new BFT instance over the given storage.
    pub fn new(storage: Storage) -> (r: BFT)
        ensures
            r.primary.storage == storage,
            !r.primary.running,
            r.leader_certificate is None,
            r.dag.view_nodes().len() == 0,
            r.committed@.len() == 0,
            r.handles.tasks@.len() == 0,
            storage.wf() ==> r.wf(),
    {
        BFT {
            primary: Primary::new(storage),
            leader_certificate: None,
            dag: Dag::new(),
            committed: Vec::new(),
            handles: TaskRegistry::new(),
        }
    }

    /// Starts the instance: runs the primary, then registers the long-running
    /// certificate-intake task. Returns once startup completes; fails exactly
    /// when the primary is already running.
    pub fn run(&mut self) -> (r: Result<(), BftError>)
        ensures
            r is Ok <==> !old(self).primary.running,
            r is Err ==> *final(self) == *old(self) && r == Err::<(), BftError>(
                BftError::AlreadyRunning,
            ),
            r is Ok ==> final(self).primary.running && final(self).primary.storage == old(self).primary.storage && final(self).handles.tasks@ == old(self).handles.tasks@.push(true)
                && final(self).leader_certificate == old(self).leader_certificate && final(self).dag == old(self).dag && final(self).committed == old(self).committed,
    {
        match self.primary.run() {
            Ok(_) => {},
            Err(e) => {
                return Err(e);
            },
        }
        self.handles.register();
        Ok(())
    }

    /// Returns the primary.
    pub fn primary(&self) -> (r: &Primary)
        ensures
            r == &self.primary,
    {
        &self.primary
    }

    /// Returns the storage.
    pub fn storage(&self) -> (r: &Storage)
        ensures
            r == &self.primary.storage,
    {
        self.primary.storage()
    }

    /// Returns the leader of the previous round, if one was present.
    pub fn leader(&self) -> (r: Option<u64>)
        ensures
            (match self.leader_certificate {
                Some(c) => r == Some(c.author),
                None => r is None,
            }),
    {
        match &self.leader_certificate {
            Some(c) => Some(c.author),
            None => None,
        }
    }

    /// Returns the certificate of the previous round's leader, if one was
    /// present.
    pub fn leader_certificate(&self) -> (r: &Option<BatchCertificate>)
        ensures
            r == &self.leader_certificate,
    {
        &self.leader_certificate
    }

    /// Updates the leader certificate at an even round boundary.
    ///
    /// On an odd current round this is a no-op returning success. On an even
    /// current round the previous round is computed with saturating
    /// subtraction; if that round holds no certificates yet the leader
    /// certificate becomes `None` (a normal outcome, not an error). Otherwise
    /// the leader is resolved against the committee of the *current* round —
    /// a deliberate policy, since membership can change between rounds — and
    /// the leader certificate becomes the previous-round certificate authored
    /// by that leader, or `None` if the leader was absent. A missing
    /// committee is a configuration fault: the call fails and the previous
    /// leader certificate is left untouched.
    pub fn update_leader_certificate(&mut self) -> (r: Result<(), BftError>)
        requires
            old(self).wf(),
        ensures
            final(self).wf(),
            final(self).primary == old(self).primary,
            final(self).dag == old(self).dag,
            final(self).committed == old(self).committed,
            final(self).handles == old(self).handles,
            ({
                let cur = old(self).primary.storage.round;
                let prev_certs = certs_in_round(
                    old(self).primary.storage.certificates@,
                    spec_previous_round(cur),
                );
                if !is_even(cur) {
                    r is Ok && final(self).leader_certificate == old(self).leader_certificate
                } else if prev_certs.len() == 0 {
                    r is Ok && final(self).leader_certificate is None
                } else {
                    match committee_for(old(self).primary.storage.committees@, cur) {
                        Some(committee) => r is Ok && final(self).leader_certificate
                            == find_author(prev_certs, committee.spec_leader(cur)),
                        None => r == Err::<(), BftError>(BftError::MissingCommittee) && final(self).leader_certificate == old(self).leader_certificate,
                    }
                }
            }),
    {
        // Retrieve the current round; odd rounds perform no update.
        let current_round = self.primary.storage.current_round();
        if current_round % 2 != 0 {
            return Ok(());
        }
        // The previous round, saturating at zero.
        let prev = previous_round(current_round);
        let previous_certificates = self.primary.storage.get_certificates_for_round(prev);
        // No certificates observed yet: a normal, non-error outcome.
        if previous_certificates.len() == 0 {
            self.leader_certificate = None;
            return Ok(());
        }
        // Resolve the leader via the committee of the current round; a
        // missing committee is a configuration fault surfaced to the caller.
        let leader: u64;
        match self.primary.storage.get_committee(current_round) {
            Some(committee) => {
                leader = committee.leader_for(current_round);
            },
            None => {
                return Err(BftError::MissingCommittee);
            },
        }
        // The leader's certificate in the previous round, if they certified.
        self.leader_certificate = find_certificate_by_author(&previous_certificates, leader);
        Ok(())
    }

    /// Stores a certificate delivered by the primary into the DAG. Fails
    /// exactly when a node for the same `(round, author)` pair is already
    /// present; a failure leaves the state unchanged, so one faulty
    /// certificate never disturbs the processing of later ones.
    pub fn process_certificate_from_primary(
        &mut self,
        certificate: BatchCertificate,
        prev_authors: Vec<u64>,
    ) -> (r: Result<(), BftError>)
        requires
            old(self).wf(),
        ensures
            final(self).wf(),
            final(self).primary == old(self).primary,
            final(self).leader_certificate == old(self).leader_certificate,
            final(self).committed == old(self).committed,
            final(self).handles == old(self).handles,
            r is Ok <==> !has_node(
                old(self).dag.view_nodes(),
                certificate.round as int,
                certificate.author,
            ),
            r is Ok ==> final(self).dag.view_nodes() == insert_sorted(
                old(self).dag.view_nodes(),
                NodeView { certificate, prev_authors: prev_authors@ },
            ),
            r is Err ==> *final(self) == *old(self) && r == Err::<(), BftError>(
                BftError::DuplicateCertificate,
            ),
    {
        self.dag.insert(certificate, prev_authors)
    }

    /// Shuts the instance down: first drains the primary cooperatively, then
    /// requests cancellation of every tracked task. Cancellation signals; it
    /// does not join.
    pub fn shut_down(&mut self)
        ensures
            shut_down_rel(*old(self), *final(self)),
            is_shut_down(*final(self)),
    {
        // Drain the primary before any task is cancelled.
        self.primary.shut_down();
        // Abort the tracked tasks.
        self.handles.cancel_all();
    }
}

/// Leader match: on a store holding at most one certificate per `(author,
/// round)` pair, if the certificates of a round include one authored by the
/// resolved leader, the author scan of the update yields exactly that
/// certificate — so after a successful even-round update the leader
/// certificate is the leader's previous-round certificate.
pub proof fn lemma_leader_match(s: Seq<BatchCertificate>, round: u64, i: int)
    requires
        forall|a: int, b: int|
            0 <= a < b < s.len() ==> !(s[a].author == s[b].author && s[a].round == s[b].round),
        0 <= i < certs_in_round(s, round).len(),
    ensures
        find_author(certs_in_round(s, round), certs_in_round(s, round)[i].author) == Some(
            certs_in_round(s, round)[i],
        ),
{
    crate::storage::lemma_certs_in_round_distinct_authors(s, round);
    crate::certificate::lemma_find_author_unique(certs_in_round(s, round), i);
}

/// The `(round, author)` pairs of the given certificates, in order.
pub open spec fn committed_pairs(s: Seq<BatchCertificate>) -> Seq<(u64, u64)>
    decreases s.len(),
{
    if s.len() == 0 {
        Seq::empty()
    } else {
        committed_pairs(s.drop_last()).push((s.last().round, s.last().author))
    }
}

/// One intake step: a certificate whose `(round, author)` pair is already in
/// the DAG is a fault and leaves it unchanged; a fresh one is placed at its
/// sorted position.
pub open spec fn intake_step(dag: Seq<NodeView>, item: NodeView) -> Seq<NodeView> {
    if has_node(dag, item.certificate.round as int, item.certificate.author) {
        dag
    } else {
        insert_sorted(dag, item)
    }
}

/// The DAG contents after delivering `items` in order.
pub open spec fn intake_fold(dag: Seq<NodeView>, items: Seq<NodeView>) -> Seq<NodeView>
    decreases items.len(),
{
    if items.len() == 0 {
        dag
    } else {
        intake_step(intake_fold(dag, items.drop_last()), items.last())
    }
}

/// How many of `items`, delivered in order onto `dag`, fault.
pub open spec fn intake_faults(dag: Seq<NodeView>, items: Seq<NodeView>) -> nat
    decreases items.len(),
{
    if items.len() == 0 {
        0
    } else {
        let one: nat = if has_node(
            intake_fold(dag, items.drop_last()),
            items.last().certificate.round as int,
            items.last().certificate.author,
        ) {
            1
        } else {
            0
        };
        intake_faults(dag, items.drop_last()) + one
    }
}

/// Intake isolation: an item that faults at its turn (its `(round, author)`
/// pair is already present by then) contributes nothing — the DAG after the
/// whole delivery equals the DAG after the same delivery with that item left
/// out, and exactly one fault is charged to it. Well-formed items around a
/// faulty one are therefore processed exactly as if it had never arrived.
pub proof fn lemma_intake_isolation(dag: Seq<NodeView>, items: Seq<NodeView>, x: int)
    requires
        0 <= x < items.len(),
        has_node(
            intake_fold(dag, items.take(x)),
            items[x].certificate.round as int,
            items[x].certificate.author,
        ),
    ensures
        intake_fold(dag, items) == intake_fold(dag, items.remove(x)),
        intake_faults(dag, items) == intake_faults(dag, items.remove(x)) + 1,
    decreases items.len(),
{
    if x == items.len() - 1 {
        assert(items.take(x) =~= items.drop_last());
        assert(items.remove(x) =~= items.drop_last());
    } else {
        assert(items.drop_last().take(x) =~= items.take(x));
        assert(items.drop_last()[x] == items[x]);
        lemma_intake_isolation(dag, items.drop_last(), x);
        assert(items.remove(x).drop_last() =~= items.drop_last().remove(x));
        assert(items.remove(x).last() == items.last());
        assert(items.remove(x).len() == items.len() - 1);
    }
}

/// Copies a list of author identities.
fn clone_authors(v: &Vec<u64>) -> (r: Vec<u64>)
    ensures
        r@ == v@,
{
    let n = v.len();
    let mut r: Vec<u64> = Vec::new();
    let mut i: usize = 0;
    while i < n
        invariant
            0 <= i <= n,
            n == v@.len(),
            r@ == v@.take(i as int),
        decreases n - i,
    {
        proof {
            assert(v@.take(i as int + 1) =~= v@.take(i as int).push(v@[i as int]));
        }
        r.push(v[i]);
        i += 1;
    }
    proof {
        assert(v@.take(n as int) =~= v@);
    }
    r
}

impl BFT {
    /// Commits the anchor at `(anchor_round, anchor_author)`: returns every
    /// certificate reachable backward from the anchor and not committed
    /// before, ordered by round and then author, and records those pairs in
    /// the commit history so no later anchor commits them again.
    pub fn commit_anchor(&mut self, anchor_round: u64, anchor_author: u64) -> (r: Vec<
        BatchCertificate,
    >)
        requires
            old(self).wf(),
            anchor_round < usize::MAX as u64,
        ensures
            final(self).wf(),
            final(self).primary == old(self).primary,
            final(self).leader_certificate == old(self).leader_certificate,
            final(self).dag == old(self).dag,
            final(self).handles == old(self).handles,
            r@ == spec_commit_sequence(
                old(self).dag.view_nodes(),
                anchor_round,
                anchor_author,
                old(self).committed@,
            ),
            final(self).committed@ == old(self).committed@ + committed_pairs(r@),
    {
        let certs = self.dag.commit_sequence(anchor_round, anchor_author, &self.committed);
        let ghost base = self.committed@;
        proof {
            assert(certs@.take(0) =~= Seq::<BatchCertificate>::empty());
            assert(self.committed@ =~= base + committed_pairs(certs@.take(0)));
        }
        let n = certs.len();
        let mut i: usize = 0;
        while i < n
            invariant
                0 <= i <= n,
                n == certs@.len(),
                self.primary == old(self).primary,
                self.leader_certificate == old(self).leader_certificate,
                self.dag == old(self).dag,
                self.handles == old(self).handles,
                base == old(self).committed@,
                self.committed@ == base + committed_pairs(certs@.take(i as int)),
            decreases n - i,
        {
            proof {
                assert(certs@.take(i as int + 1).drop_last() =~= certs@.take(i as int));
                assert(certs@.take(i as int + 1).last() == certs@[i as int]);
            }
            let c = certs[i];
            self.committed.push((c.round, c.author));
            proof {
                assert(self.committed@ =~= base + committed_pairs(certs@.take(i as int + 1)));
            }
            i += 1;
        }
        proof {
            assert(certs@.take(n as int) =~= certs@);
        }
        certs
    }

    /// Processes a batch of delivered certificates strictly in delivery
    /// order: each is stored into the DAG exactly once; a faulty one (its
    /// `(round, author)` pair already present) is counted and skipped
    /// without disturbing the processing of the others.
    pub fn process_certificates(&mut self, batch: &Vec<DagNode>) -> (faults: usize)
        requires
            old(self).wf(),
        ensures
            final(self).wf(),
            final(self).primary == old(self).primary,
            final(self).leader_certificate == old(self).leader_certificate,
            final(self).committed == old(self).committed,
            final(self).handles == old(self).handles,
            final(self).dag.view_nodes() == intake_fold(
                old(self).dag.view_nodes(),
                batch.deep_view(),
            ),
            faults == intake_faults(old(self).dag.view_nodes(), batch.deep_view()),
    {
        let ghost base = self.dag.view_nodes();
        proof {
            assert(batch.deep_view().take(0) =~= Seq::<NodeView>::empty());
        }
        let n = batch.len();
        let mut faults: usize = 0;
        let mut i: usize = 0;
        while i < n
            invariant
                0 <= i <= n,
                n == batch@.len(),
                batch.deep_view().len() == batch@.len(),
                self.wf(),
                self.primary == old(self).primary,
                self.leader_certificate == old(self).leader_certificate,
                self.committed == old(self).committed,
                self.handles == old(self).handles,
                base == old(self).dag.view_nodes(),
                self.dag.view_nodes() == intake_fold(base, batch.deep_view().take(i as int)),
                faults <= i,
                faults == intake_faults(base, batch.deep_view().take(i as int)),
            decreases n - i,
        {
            proof {
                assert(batch.deep_view().take(i as int + 1).drop_last() =~= batch.deep_view().take(
                    i as int,
                ));
                assert(batch.deep_view().take(i as int + 1).last() == batch.deep_view()[i as int]);
                assert(batch.deep_view()[i as int] == batch@[i as int]@);
            }
            let item = &batch[i];
            let prevs = clone_authors(&item.prev_authors);
            proof {
                assert((NodeView { certificate: item.certificate, prev_authors: prevs@ })
                    == batch@[i as int]@);
            }
            match self.process_certificate_from_primary(item.certificate, prevs) {
                Ok(_) => {},
                Err(_) => {
                    faults = faults + 1;
                },
            }
            i += 1;
        }
        proof {
            assert(batch.deep_view().take(n as int) =~= batch.deep_view());
        }
        faults
    }
}

/// Shutdown is idempotent: on a state that is already fully shut down, the
/// shutdown contract can only produce a state with the same storage, leader
/// certificate, DAG, commit history, and task flags — no task becomes
/// runnable again and nothing else moves.
pub proof fn lemma_shut_down_idempotent(pre: BFT, post: BFT)
    requires
        is_shut_down(pre),
        shut_down_rel(pre, post),
    ensures
        is_shut_down(post),
        post.primary.storage == pre.primary.storage,
        post.primary.running == pre.primary.running,
        post.leader_certificate == pre.leader_certificate,
        post.dag == pre.dag,
        post.committed == pre.committed,
        post.handles.tasks@ =~= pre.handles.tasks@,
{
}

} // verus!
