//! The certificate DAG and the deterministic anchor commit rule.
//!
//! Certificates form a layered DAG: a node in round `r` references, by
//! author, nodes of round `r - 1`. The DAG keeps its nodes sorted by
//! `(round, author)`, one node per pair, so that every replica holding the
//! same nodes holds them in the same order and the commit rule below is a
//! pure function of the DAG's contents.

use vstd::prelude::*;

use crate::certificate::BatchCertificate;
use crate::errors::BftError;

verus! {

broadcast use vstd::seq_lib::lemma_seq_contains_after_push;

/// A certificate together with its references into the previous round.
pub struct DagNode {
    /// The certificate this node carries.
    pub certificate: BatchCertificate,
    /// Authors of the previous-round certificates this one references.
    pub prev_authors: Vec<u64>,
}

/// The mathematical content of a [`DagNode`].
pub ghost struct NodeView {
    /// The certificate this node carries.
    pub certificate: BatchCertificate,
    /// Authors of the previous-round certificates this one references.
    pub prev_authors: Seq<u64>,
}

impl View for DagNode {
    type V = NodeView;

    open spec fn view(&self) -> NodeView {
        NodeView { certificate: self.certificate, prev_authors: self.prev_authors@ }
    }
}

impl DeepView for DagNode {
    type V = NodeView;

    open spec fn deep_view(&self) -> NodeView {
        self@
    }
}

/// Strict ordering of nodes by `(round, author)`.
pub open spec fn node_lt(a: NodeView, b: NodeView) -> bool {
    a.certificate.round < b.certificate.round || (a.certificate.round == b.certificate.round
        && a.certificate.author < b.certificate.author)
}

/// The node of `s` at `(round, author)`, if any.
pub open spec fn find_node(s: Seq<NodeView>, round: int, author: u64) -> Option<NodeView>
    decreases s.len(),
{
    if s.len() == 0 {
        None
    } else if s.first().certificate.round == round && s.first().certificate.author == author {
        Some(s.first())
    } else {
        find_node(s.drop_first(), round, author)
    }
}

/// Whether `s` holds a node at `(round, author)`.
pub open spec fn has_node(s: Seq<NodeView>, round: int, author: u64) -> bool {
    exists|i: int|
        0 <= i < s.len() && s[i].certificate.round == round && s[i].certificate.author == author
}

/// `s` with `n` placed at its sorted position.
pub open spec fn insert_sorted(s: Seq<NodeView>, n: NodeView) -> Seq<NodeView>
    decreases s.len(),
{
    if s.len() == 0 {
        seq![n]
    } else if node_lt(n, s.first()) {
        seq![n] + s
    } else {
        seq![s.first()] + insert_sorted(s.drop_first(), n)
    }
}

pub proof fn lemma_insert_sorted_at(s: Seq<NodeView>, n: NodeView, k: int)
    requires
        0 <= k <= s.len(),
        forall|i: int| 0 <= i < k ==> node_lt(#[trigger] s[i], n),
        k < s.len() ==> node_lt(n, s[k]),
    ensures
        insert_sorted(s, n) == s.take(k) + seq![n] + s.skip(k),
    decreases s.len(),
{
    if s.len() == 0 {
        assert(s.take(k) =~= Seq::<NodeView>::empty());
        assert(s.skip(k) =~= Seq::<NodeView>::empty());
        assert(insert_sorted(s, n) =~= s.take(k) + seq![n] + s.skip(k));
    } else if node_lt(n, s.first()) {
        assert(k == 0) by {
            if k > 0 {
                assert(node_lt(s[0], n));
            }
        }
        assert(s.take(0) =~= Seq::<NodeView>::empty());
        assert(s.skip(0) =~= s);
        assert(insert_sorted(s, n) =~= s.take(k) + seq![n] + s.skip(k));
    } else {
        assert(k != 0) by {
            if k == 0 {
                if 0 < s.len() {
                    assert(node_lt(n, s[0]));
                }
            }
        }
        assert(forall|i: int|
            0 <= i < k - 1 ==> node_lt(#[trigger] s.drop_first()[i], n)) by {
            assert(forall|i: int| 0 <= i < k - 1 ==> s.drop_first()[i] == s[i + 1]);
        }
        assert(k - 1 < s.drop_first().len() ==> node_lt(n, s.drop_first()[k - 1]));
        lemma_insert_sorted_at(s.drop_first(), n, k - 1);
        assert(s.take(k) + seq![n] + s.skip(k) =~= seq![s.first()] + (s.drop_first().take(k - 1)
            + seq![n] + s.drop_first().skip(k - 1)));
    }
}

/// The layered certificate DAG, nodes sorted by `(round, author)`.
pub struct Dag {
    /// The nodes, strictly sorted by `(round, author)`.
    pub nodes: Vec<DagNode>,
}

impl Dag {
    /// The nodes this DAG holds, as mathematical values.
    pub open spec fn view_nodes(&self) -> Seq<NodeView> {
        self.nodes.deep_view()
    }

    /// Nodes are strictly sorted by `(round, author)`, so each pair occurs at
    /// most once and every replica holds equal DAGs in equal orders.
    pub open spec fn wf(&self) -> bool {
        forall|i: int, j: int|
            0 <= i < j < self.view_nodes().len() ==> node_lt(
                self.view_nodes()[i],
                self.view_nodes()[j],
            )
    }

    /// An empty DAG.
    pub fn new() -> (r: Dag)
        ensures
            r.wf(),
            r.view_nodes().len() == 0,
    {
        let d = Dag { nodes: Vec::new() };
        proof {
            assert(d.view_nodes() =~= Seq::<NodeView>::empty());
        }
        d
    }

    /// Looks up the node at `(round, author)`.
    pub fn find(&self, round: u64, author: u64) -> (r: Option<&DagNode>)
        ensures
            match r {
                Some(n) => find_node(self.view_nodes(), round as int, author) == Some(n@),
                None => find_node(self.view_nodes(), round as int, author) is None,
            },
    {
        proof {
            assert(self.view_nodes().skip(0) =~= self.view_nodes());
        }
        let n = self.nodes.len();
        let mut i: usize = 0;
        while i < n
            invariant
                0 <= i <= n,
                n == self.nodes@.len(),
                self.view_nodes().len() == self.nodes@.len(),
                find_node(self.view_nodes(), round as int, author) == find_node(
                    self.view_nodes().skip(i as int),
                    round as int,
                    author,
                ),
            decreases n - i,
        {
            proof {
                assert(self.view_nodes().skip(i as int).first() == self.view_nodes()[i as int]);
                assert(self.view_nodes().skip(i as int).drop_first() =~= self.view_nodes().skip(
                    i as int + 1,
                ));
                assert(self.view_nodes()[i as int] == self.nodes@[i as int]@);
            }
            if self.nodes[i].certificate.round == round && self.nodes[i].certificate.author
                == author {
                return Some(&self.nodes[i]);
            }
            i += 1;
        }
        proof {
            assert(self.view_nodes().skip(n as int) =~= Seq::<NodeView>::empty());
        }
        None
    }

    /// Admits a certificate with its previous-round references. Fails exactly
    /// when the DAG already holds a node for the same `(round, author)`; on
    /// success the node is placed at its sorted position.
    pub fn insert(&mut self, certificate: BatchCertificate, prev_authors: Vec<u64>) -> (r: Result<
        (),
        BftError,
    >)
        requires
            old(self).wf(),
        ensures
            final(self).wf(),
            r is Ok <==> !has_node(
                old(self).view_nodes(),
                certificate.round as int,
                certificate.author,
            ),
            r is Ok ==> final(self).view_nodes() == insert_sorted(
                old(self).view_nodes(),
                NodeView { certificate, prev_authors: prev_authors@ },
            ),
            r is Err ==> *final(self) == *old(self) && r == Err::<(), BftError>(
                BftError::DuplicateCertificate,
            ),
    {
        let ghost nv = NodeView { certificate, prev_authors: prev_authors@ };
        let n = self.nodes.len();
        let mut i: usize = 0;
        while i < n && (self.nodes[i].certificate.round < certificate.round
            || (self.nodes[i].certificate.round == certificate.round
                && self.nodes[i].certificate.author < certificate.author))
            invariant
                0 <= i <= n,
                n == self.nodes@.len(),
                self.view_nodes().len() == self.nodes@.len(),
                self.wf(),
                *self == *old(self),
                nv == (NodeView { certificate, prev_authors: prev_authors@ }),
                forall|j: int| 0 <= j < i ==> node_lt(#[trigger] self.view_nodes()[j], nv),
            decreases n - i,
        {
            proof {
                assert(self.view_nodes()[i as int] == self.nodes@[i as int]@);
            }
            i += 1;
        }
        proof {
            assert(forall|j: int|
                0 <= j < self.view_nodes().len() ==> self.view_nodes()[j] == self.nodes@[j]@);
        }
        if i < n && self.nodes[i].certificate.round == certificate.round
            && self.nodes[i].certificate.author == certificate.author {
            proof {
                assert(self.view_nodes()[i as int] == self.nodes@[i as int]@);
                assert(self.view_nodes()[i as int].certificate.round == certificate.round
                    && self.view_nodes()[i as int].certificate.author == certificate.author);
                assert(has_node(self.view_nodes(), certificate.round as int, certificate.author));
            }
            return Err(BftError::DuplicateCertificate);
        }
        proof {
            // Everything before `i` is strictly below the new key, and the
            // node at `i` (if any) strictly above, hence so is all after it.
            assert forall|j: int|
                i <= j < self.view_nodes().len() implies node_lt(
                nv,
                #[trigger] self.view_nodes()[j],
            ) by {
                assert(node_lt(nv, self.view_nodes()[i as int]));
                if j > i {
                    assert(node_lt(self.view_nodes()[i as int], self.view_nodes()[j]));
                }
            }
            assert(!has_node(self.view_nodes(), certificate.round as int, certificate.author)) by {
                if has_node(self.view_nodes(), certificate.round as int, certificate.author) {
                    let j = choose|j: int|
                        0 <= j < self.view_nodes().len() && self.view_nodes()[j].certificate.round
                            == certificate.round as int
                            && self.view_nodes()[j].certificate.author == certificate.author;
                    if j < i {
                        assert(node_lt(self.view_nodes()[j], nv));
                    } else {
                        assert(node_lt(nv, self.view_nodes()[j]));
                    }
                }
            }
            lemma_insert_sorted_at(self.view_nodes(), nv, i as int);
        }
        let ghost pre = self.view_nodes();
        self.nodes.insert(i, DagNode { certificate, prev_authors });
        proof {
            assert(self.view_nodes() =~= pre.take(i as int) + seq![nv] + pre.skip(i as int)) by {
                assert(forall|j: int|
                    0 <= j < self.nodes@.len() ==> self.view_nodes()[j] == self.nodes@[j]@);
            }
            assert(self.view_nodes() == insert_sorted(pre, nv));
            // Sortedness is preserved around the insertion point.
            assert forall|a: int, b: int|
                0 <= a < b < self.view_nodes().len() implies node_lt(
                self.view_nodes()[a],
                self.view_nodes()[b],
            ) by {
                let s = pre.take(i as int) + seq![nv] + pre.skip(i as int);
                assert(self.view_nodes() == s);
            }
        }
        Ok(())
    }
}

/// Strict ordering of certificates by `(round, author)`: the commit order.
pub open spec fn cert_lt(a: BatchCertificate, b: BatchCertificate) -> bool {
    a.round < b.round || (a.round == b.round && a.author < b.author)
}

/// Whether the round-`round` node of author `a` in `s` references author `p`
/// in the round below.
pub open spec fn references(s: Seq<NodeView>, round: int, a: u64, p: u64) -> bool {
    match find_node(s, round, a) {
        Some(n) => n.prev_authors.contains(p),
        None => false,
    }
}

/// One backward step: the authors referenced, from round `round`, by the
/// nodes of the authors in `from`.
pub open spec fn frontier_step(s: Seq<NodeView>, from: Set<u64>, round: int) -> Set<u64> {
    Set::new(
        |p: u64|
            exists|a: u64| #[trigger] from.contains(a) && references(s, round, a, p),
    )
}

/// The authors whose certificates in round `anchor_round - k` are reachable
/// by walking backward from the anchor node at `(anchor_round,
/// anchor_author)`.
pub open spec fn spec_frontier(
    s: Seq<NodeView>,
    anchor_round: u64,
    anchor_author: u64,
    k: nat,
) -> Set<u64>
    decreases k,
{
    if k == 0 {
        set![anchor_author]
    } else {
        frontier_step(
            s,
            spec_frontier(s, anchor_round, anchor_author, (k - 1) as nat),
            anchor_round - (k - 1),
        )
    }
}

/// Whether node `n` of `s` is reachable backward from the anchor.
pub open spec fn spec_reachable(
    s: Seq<NodeView>,
    anchor_round: u64,
    anchor_author: u64,
    n: NodeView,
) -> bool {
    &&& n.certificate.round <= anchor_round
    &&& spec_frontier(
        s,
        anchor_round,
        anchor_author,
        (anchor_round - n.certificate.round) as nat,
    ).contains(n.certificate.author)
}

/// The certificates of the prefix `s` of `full` that the anchor commits:
/// reachable from it and not committed before, in the order of `s`.
pub open spec fn commit_filter(
    full: Seq<NodeView>,
    s: Seq<NodeView>,
    anchor_round: u64,
    anchor_author: u64,
    committed: Seq<(u64, u64)>,
) -> Seq<BatchCertificate>
    decreases s.len(),
{
    if s.len() == 0 {
        Seq::empty()
    } else {
        let rest = commit_filter(full, s.drop_last(), anchor_round, anchor_author, committed);
        let n = s.last();
        if spec_reachable(full, anchor_round, anchor_author, n) && !committed.contains(
            (n.certificate.round, n.certificate.author),
        ) {
            rest.push(n.certificate)
        } else {
            rest
        }
    }
}

/// The commit sequence of the anchor at `(anchor_round, anchor_author)`:
/// every reachable, not-yet-committed certificate, ordered by round and then
/// author.
pub open spec fn spec_commit_sequence(
    s: Seq<NodeView>,
    anchor_round: u64,
    anchor_author: u64,
    committed: Seq<(u64, u64)>,
) -> Seq<BatchCertificate> {
    commit_filter(s, s, anchor_round, anchor_author, committed)
}

/// Whether `v` holds `x`.
fn contains_u64(v: &Vec<u64>, x: u64) -> (r: bool)
    ensures
        r == v@.contains(x),
{
    let n = v.len();
    let mut i: usize = 0;
    while i < n
        invariant
            0 <= i <= n,
            n == v@.len(),
            forall|j: int| 0 <= j < i ==> v@[j] != x,
        decreases n - i,
    {
        if v[i] == x {
            return true;
        }
        i += 1;
    }
    false
}

/// Whether `v` holds the pair `(round, author)`.
fn contains_pair(v: &Vec<(u64, u64)>, round: u64, author: u64) -> (r: bool)
    ensures
        r == v@.contains((round, author)),
{
    let n = v.len();
    let mut i: usize = 0;
    while i < n
        invariant
            0 <= i <= n,
            n == v@.len(),
            forall|j: int| 0 <= j < i ==> v@[j] != (round, author),
        decreases n - i,
    {
        if v[i].0 == round && v[i].1 == author {
            return true;
        }
        i += 1;
    }
    false
}

impl Dag {
    /// Computes, for each depth `k` up to `anchor_round`, the authors whose
    /// round-`(anchor_round - k)` certificates are reachable from the anchor.
    fn compute_frontiers(&self, anchor_round: u64, anchor_author: u64) -> (r: Vec<Vec<u64>>)
        requires
            self.wf(),
            anchor_round < usize::MAX as u64,
        ensures
            r@.len() == anchor_round + 1,
            forall|k: int, p: u64|
                0 <= k <= anchor_round ==> (#[trigger] r@[k]@.contains(p) <==> spec_frontier(
                    self.view_nodes(),
                    anchor_round,
                    anchor_author,
                    k as nat,
                ).contains(p)),
    {
        let mut frontiers: Vec<Vec<u64>> = Vec::new();
        let mut first: Vec<u64> = Vec::new();
        first.push(anchor_author);
        frontiers.push(first);
        proof {
            assert(forall|p: u64|
                frontiers@[0]@.contains(p) <==> set![anchor_author].contains(p)) by {
                assert(forall|p: u64| frontiers@[0]@.contains(p) ==> p == anchor_author);
                assert(frontiers@[0]@[0] == anchor_author);
            }
        }
        let mut k: u64 = 1;
        while k <= anchor_round
            invariant
                1 <= k <= anchor_round + 1,
                self.wf(),
                anchor_round < usize::MAX as u64,
                frontiers@.len() == k,
                forall|kk: int, p: u64|
                    0 <= kk < k ==> (#[trigger] frontiers@[kk]@.contains(p) <==> spec_frontier(
                        self.view_nodes(),
                        anchor_round,
                        anchor_author,
                        kk as nat,
                    ).contains(p)),
            decreases anchor_round - k + 1,
        {
            let round = anchor_round - (k - 1);
            let ghost prev_set = spec_frontier(
                self.view_nodes(),
                anchor_round,
                anchor_author,
                (k - 1) as nat,
            );
            let cur = &frontiers[(k - 1) as usize];
            let mut next: Vec<u64> = Vec::new();
            let cn = cur.len();
            let mut j: usize = 0;
            while j < cn
                invariant
                    0 <= j <= cn,
                    cn == cur@.len(),
                    self.wf(),
                    forall|p: u64| #![trigger next@.contains(p)]
                        next@.contains(p) <==> exists|jj: int|
                            0 <= jj < j && references(
                                self.view_nodes(),
                                round as int,
                                #[trigger] cur@[jj],
                                p,
                            ),
                decreases cn - j,
            {
                let a = cur[j];
                let ghost pre_next = next@;
                match self.find(round, a) {
                    Some(node) => {
                        proof {
                            assert(node.prev_authors@.take(0) =~= Seq::<u64>::empty());
                        }
                        let pn = node.prev_authors.len();
                        let mut m: usize = 0;
                        while m < pn
                            invariant
                                0 <= m <= pn,
                                pn == node.prev_authors@.len(),
                                forall|p: u64| #![trigger next@.contains(p)]
                                    next@.contains(p) <==> pre_next.contains(p)
                                        || node.prev_authors@.take(m as int).contains(p),
                            decreases pn - m,
                        {
                            let ghost nb = next@;
                            next.push(node.prev_authors[m]);
                            proof {
                                assert(node.prev_authors@.take(m as int + 1) =~= node.prev_authors@.take(
                                    m as int,
                                ).push(node.prev_authors@[m as int]));
                                assert(next@ == nb.push(node.prev_authors@[m as int]));
                                assert forall|p: u64| #![trigger next@.contains(p)]
                                    next@.contains(p) <==> pre_next.contains(p)
                                        || node.prev_authors@.take(m as int + 1).contains(p) by {
                                    assert(next@.contains(p) <==> nb.contains(p) || p
                                        == node.prev_authors@[m as int]);
                                    assert(node.prev_authors@.take(m as int + 1).contains(p)
                                        <==> node.prev_authors@.take(m as int).contains(p) || p
                                        == node.prev_authors@[m as int]);
                                }
                            }
                            m += 1;
                        }
                        proof {
                            assert(node.prev_authors@.take(pn as int) =~= node.prev_authors@);
                            assert forall|p: u64| next@.contains(p) implies (exists|jj: int|
                                0 <= jj < j + 1 && references(
                                    self.view_nodes(),
                                    round as int,
                                    #[trigger] cur@[jj],
                                    p,
                                )) by {
                                if pre_next.contains(p) {
                                    let jj = choose|jj: int|
                                        0 <= jj < j && references(
                                            self.view_nodes(),
                                            round as int,
                                            #[trigger] cur@[jj],
                                            p,
                                        );
                                    assert(references(
                                        self.view_nodes(),
                                        round as int,
                                        cur@[jj],
                                        p,
                                    ));
                                } else {
                                    assert(node.prev_authors@.contains(p));
                                    assert(references(
                                        self.view_nodes(),
                                        round as int,
                                        cur@[j as int],
                                        p,
                                    ));
                                }
                            }
                            assert forall|p: u64|
                                (exists|jj: int|
                                    0 <= jj < j + 1 && references(
                                        self.view_nodes(),
                                        round as int,
                                        #[trigger] cur@[jj],
                                        p,
                                    )) implies next@.contains(p) by {
                                let jj = choose|jj: int|
                                    0 <= jj < j + 1 && references(
                                        self.view_nodes(),
                                        round as int,
                                        #[trigger] cur@[jj],
                                        p,
                                    );
                                if jj < j {
                                    assert(pre_next.contains(p));
                                } else {
                                    assert(node.prev_authors@.contains(p));
                                }
                            }
                        }
                    },
                    None => {
                        proof {
                            assert forall|p: u64| next@.contains(p) == (exists|jj: int|
                                0 <= jj < j + 1 && references(
                                    self.view_nodes(),
                                    round as int,
                                    #[trigger] cur@[jj],
                                    p,
                                )) by {
                                assert(!references(self.view_nodes(), round as int, cur@[j as int], p));
                                if exists|jj: int|
                                    0 <= jj < j + 1 && references(
                                        self.view_nodes(),
                                        round as int,
                                        #[trigger] cur@[jj],
                                        p,
                                    ) {
                                    let jj = choose|jj: int|
                                        0 <= jj < j + 1 && references(
                                            self.view_nodes(),
                                            round as int,
                                            #[trigger] cur@[jj],
                                            p,
                                        );
                                    assert(jj < j);
                                }
                            }
                        }
                    },
                }
                j += 1;
            }
            proof {
                let view = self.view_nodes();
                assert forall|p: u64| next@.contains(p) <==> frontier_step(
                    view,
                    prev_set,
                    round as int,
                ).contains(p) by {
                    if next@.contains(p) {
                        let jj = choose|jj: int|
                            0 <= jj < cur@.len() && references(
                                view,
                                round as int,
                                #[trigger] cur@[jj],
                                p,
                            );
                        assert(cur@.contains(cur@[jj]));
                        assert(prev_set.contains(cur@[jj]));
                        assert(frontier_step(view, prev_set, round as int).contains(p));
                    }
                    if frontier_step(view, prev_set, round as int).contains(p) {
                        let a = choose|a: u64|
                            #[trigger] prev_set.contains(a) && references(view, round as int, a, p);
                        assert(cur@.contains(a));
                        let jj = choose|jj: int| 0 <= jj < cur@.len() && cur@[jj] == a;
                        assert(references(view, round as int, cur@[jj], p));
                        assert(next@.contains(p));
                    }
                }
                assert(spec_frontier(view, anchor_round, anchor_author, k as nat)
                    =~= frontier_step(view, prev_set, round as int));
            }
            frontiers.push(next);
            k += 1;
        }
        frontiers
    }

    /// Produces the commit sequence of the anchor at `(anchor_round,
    /// anchor_author)`: every certificate reachable backward from the anchor
    /// and not in `committed`, ordered by round ascending and author
    /// ascending within a round.
    pub fn commit_sequence(
        &self,
        anchor_round: u64,
        anchor_author: u64,
        committed: &Vec<(u64, u64)>,
    ) -> (r: Vec<BatchCertificate>)
        requires
            self.wf(),
            anchor_round < usize::MAX as u64,
        ensures
            r@ == spec_commit_sequence(self.view_nodes(), anchor_round, anchor_author, committed@),
    {
        let frontiers = self.compute_frontiers(anchor_round, anchor_author);
        proof {
            assert(self.view_nodes().take(0) =~= Seq::<NodeView>::empty());
        }
        let mut result: Vec<BatchCertificate> = Vec::new();
        let n = self.nodes.len();
        let mut i: usize = 0;
        while i < n
            invariant
                0 <= i <= n,
                n == self.nodes@.len(),
                self.view_nodes().len() == self.nodes@.len(),
                self.wf(),
                anchor_round < usize::MAX as u64,
                frontiers@.len() == anchor_round + 1,
                forall|k: int, p: u64|
                    0 <= k <= anchor_round ==> (#[trigger] frontiers@[k]@.contains(p)
                        <==> spec_frontier(
                        self.view_nodes(),
                        anchor_round,
                        anchor_author,
                        k as nat,
                    ).contains(p)),
                result@ == commit_filter(
                    self.view_nodes(),
                    self.view_nodes().take(i as int),
                    anchor_round,
                    anchor_author,
                    committed@,
                ),
            decreases n - i,
        {
            proof {
                assert(self.view_nodes().take(i as int + 1).drop_last() =~= self.view_nodes().take(
                    i as int,
                ));
                assert(self.view_nodes().take(i as int + 1).last() == self.view_nodes()[i as int]);
                assert(self.view_nodes()[i as int] == self.nodes@[i as int]@);
            }
            let node_round = self.nodes[i].certificate.round;
            let node_author = self.nodes[i].certificate.author;
            if node_round <= anchor_round {
                let k = anchor_round - node_round;
                let in_frontier = contains_u64(&frontiers[k as usize], node_author);
                if in_frontier && !contains_pair(committed, node_round, node_author) {
                    result.push(self.nodes[i].certificate);
                }
            }
            i += 1;
        }
        proof {
            assert(self.view_nodes().take(n as int) =~= self.view_nodes());
        }
        result
    }
}

/// Every committed certificate comes from a node of the filtered prefix.
pub proof fn lemma_commit_filter_members(
    full: Seq<NodeView>,
    s: Seq<NodeView>,
    anchor_round: u64,
    anchor_author: u64,
    committed: Seq<(u64, u64)>,
)
    ensures
        forall|i: int|
            #![trigger commit_filter(full, s, anchor_round, anchor_author, committed)[i]]
            0 <= i < commit_filter(full, s, anchor_round, anchor_author, committed).len()
                ==> exists|j: int|
                0 <= j < s.len() && commit_filter(full, s, anchor_round, anchor_author, committed)[i]
                    == (#[trigger] s[j]).certificate,
    decreases s.len(),
{
    if s.len() > 0 {
        lemma_commit_filter_members(full, s.drop_last(), anchor_round, anchor_author, committed);
        let out = commit_filter(full, s, anchor_round, anchor_author, committed);
        let rest = commit_filter(full, s.drop_last(), anchor_round, anchor_author, committed);
        assert forall|i: int| #![trigger out[i]] 0 <= i < out.len() implies exists|j: int|
            0 <= j < s.len() && out[i] == (#[trigger] s[j]).certificate by {
            if i < rest.len() {
                let j = choose|j: int|
                    0 <= j < s.drop_last().len() && rest[i] == (#[trigger] s.drop_last()[j]).certificate;
                assert(s.drop_last()[j] == s[j]);
                assert(out[i] == s[j].certificate);
            } else {
                assert(out[i] == s[s.len() - 1].certificate);
            }
        }
    }
}

/// The commit filter is complete: every node of the prefix that is reachable
/// from the anchor and not committed before has its certificate in the
/// output — together with the no-duplicates property, every such certificate
/// is committed exactly once.
pub proof fn lemma_commit_filter_complete(
    full: Seq<NodeView>,
    s: Seq<NodeView>,
    anchor_round: u64,
    anchor_author: u64,
    committed: Seq<(u64, u64)>,
)
    ensures
        forall|j: int|
            0 <= j < s.len() && spec_reachable(full, anchor_round, anchor_author, s[j])
                && !committed.contains(
                ((#[trigger] s[j]).certificate.round, s[j].certificate.author),
            ) ==> commit_filter(full, s, anchor_round, anchor_author, committed).contains(
                s[j].certificate,
            ),
    decreases s.len(),
{
    if s.len() > 0 {
        lemma_commit_filter_complete(full, s.drop_last(), anchor_round, anchor_author, committed);
        let out = commit_filter(full, s, anchor_round, anchor_author, committed);
        let rest = commit_filter(full, s.drop_last(), anchor_round, anchor_author, committed);
        assert forall|j: int|
            0 <= j < s.len() && spec_reachable(full, anchor_round, anchor_author, s[j])
                && !committed.contains(
                ((#[trigger] s[j]).certificate.round, s[j].certificate.author),
            ) implies out.contains(s[j].certificate) by {
            if j < s.len() - 1 {
                assert(s.drop_last()[j] == s[j]);
                assert(rest.contains(s[j].certificate));
            } else {
                assert(out == rest.push(s.last().certificate));
                assert(out[out.len() - 1] == s[j].certificate);
            }
        }
    }
}

/// On a DAG whose nodes are sorted by `(round, author)`, the commit filter
/// yields certificates strictly sorted by `(round, author)`.
pub proof fn lemma_commit_filter_sorted(
    full: Seq<NodeView>,
    s: Seq<NodeView>,
    anchor_round: u64,
    anchor_author: u64,
    committed: Seq<(u64, u64)>,
)
    requires
        forall|i: int, j: int| 0 <= i < j < s.len() ==> node_lt(s[i], s[j]),
    ensures
        forall|i: int, j: int|
            0 <= i < j < commit_filter(full, s, anchor_round, anchor_author, committed).len()
                ==> cert_lt(
                commit_filter(full, s, anchor_round, anchor_author, committed)[i],
                commit_filter(full, s, anchor_round, anchor_author, committed)[j],
            ),
    decreases s.len(),
{
    if s.len() > 0 {
        assert(forall|i: int, j: int|
            0 <= i < j < s.drop_last().len() ==> node_lt(
                #[trigger] s.drop_last()[i],
                #[trigger] s.drop_last()[j],
            ));
        lemma_commit_filter_sorted(full, s.drop_last(), anchor_round, anchor_author, committed);
        lemma_commit_filter_members(full, s.drop_last(), anchor_round, anchor_author, committed);
        let out = commit_filter(full, s, anchor_round, anchor_author, committed);
        let rest = commit_filter(full, s.drop_last(), anchor_round, anchor_author, committed);
        assert forall|i: int, j: int| 0 <= i < j < out.len() implies cert_lt(out[i], out[j]) by {
            if j < rest.len() {
                assert(cert_lt(rest[i], rest[j]));
            } else if j == rest.len() && out.len() == rest.len() + 1 {
                let jj = choose|jj: int|
                    0 <= jj < s.drop_last().len() && rest[i] == (#[trigger] s.drop_last()[jj]).certificate;
                assert(node_lt(s[jj], s[s.len() - 1]));
                assert(cert_lt(out[i], out[j]));
            }
        }
    }
}

/// Commit determinism: two replicas holding equal DAG contents and equal
/// commit histories derive identical commit sequences for the same anchor.
pub proof fn lemma_commit_deterministic(
    d1: &Dag,
    d2: &Dag,
    anchor_round: u64,
    anchor_author: u64,
    committed1: Seq<(u64, u64)>,
    committed2: Seq<(u64, u64)>,
)
    requires
        d1.view_nodes() == d2.view_nodes(),
        committed1 == committed2,
    ensures
        spec_commit_sequence(d1.view_nodes(), anchor_round, anchor_author, committed1)
            == spec_commit_sequence(d2.view_nodes(), anchor_round, anchor_author, committed2),
{
}

/// Commit safety: within one commit sequence of a well-formed DAG, no
/// certificate — indeed no `(round, author)` pair — appears twice.
pub proof fn lemma_commit_no_duplicates(
    d: &Dag,
    anchor_round: u64,
    anchor_author: u64,
    committed: Seq<(u64, u64)>,
)
    requires
        d.wf(),
    ensures
        forall|i: int, j: int|
            0 <= i < j < spec_commit_sequence(
                d.view_nodes(),
                anchor_round,
                anchor_author,
                committed,
            ).len() ==> spec_commit_sequence(
                d.view_nodes(),
                anchor_round,
                anchor_author,
                committed,
            )[i] != spec_commit_sequence(d.view_nodes(), anchor_round, anchor_author, committed)[j],
{
    lemma_commit_filter_sorted(
        d.view_nodes(),
        d.view_nodes(),
        anchor_round,
        anchor_author,
        committed,
    );
    let out = spec_commit_sequence(d.view_nodes(), anchor_round, anchor_author, committed);
    assert forall|i: int, j: int| 0 <= i < j < out.len() implies out[i] != out[j] by {
        assert(cert_lt(out[i], out[j]));
    }
}

} // verus!
