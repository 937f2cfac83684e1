//! Stake-weighted committee snapshots and deterministic leader selection.
//!
//! A committee is an immutable, round-scoped snapshot of member identities and
//! stake weights. Leader selection is a pure function of the round number and
//! the committee composition: a pseudo-random point in `[0, total_stake)` is
//! derived from the round alone, and the member whose cumulative stake
//! interval covers that point is the leader. All honest replicas therefore
//! compute the same leader for the same round without communication.

use vstd::prelude::*;

verus! {

/// Multiplier used to spread round numbers over the stake interval.
pub const LEADER_MIX: u64 = 0x9E37_79B9_7F4A_7C15;

/// A committee member: an identity together with its stake weight.
#[derive(Clone, Copy, PartialEq, Eq, Structural, Debug)]
pub struct Member {
    /// The member's identity.
    pub id: u64,
    /// The member's stake weight.
    pub stake: u64,
}

/// The total stake of a member sequence.
pub open spec fn sum_stake(s: Seq<Member>) -> int
    decreases s.len(),
{
    if s.len() == 0 {
        0
    } else {
        s.first().stake + sum_stake(s.drop_first())
    }
}

/// No two members share an identity.
pub open spec fn distinct_ids(s: Seq<Member>) -> bool {
    forall|i: int, j: int| 0 <= i < j < s.len() ==> s[i].id != s[j].id
}

/// A member sequence forms a valid committee: non-empty, identities distinct,
/// and the total stake positive and representable.
pub open spec fn valid_members(s: Seq<Member>) -> bool {
    &&& s.len() > 0
    &&& distinct_ids(s)
    &&& 1 <= sum_stake(s) <= u64::MAX
}

pub proof fn lemma_sum_stake_nonneg(s: Seq<Member>)
    ensures
        sum_stake(s) >= 0,
    decreases s.len(),
{
    if s.len() > 0 {
        lemma_sum_stake_nonneg(s.drop_first());
    }
}

pub proof fn lemma_sum_stake_singleton(m: Member)
    ensures
        sum_stake(seq![m]) == m.stake,
{
    let s = seq![m];
    assert(s.len() == 1);
    assert(s.first() == m);
    assert(s.drop_first() =~= Seq::<Member>::empty());
    assert(sum_stake(Seq::<Member>::empty()) == 0);
    assert(sum_stake(s) == m.stake + sum_stake(s.drop_first()));
}

pub proof fn lemma_sum_stake_split(s: Seq<Member>, i: int)
    requires
        0 <= i <= s.len(),
    ensures
        sum_stake(s) == sum_stake(s.take(i)) + sum_stake(s.skip(i)),
    decreases i,
{
    if i == 0 {
        assert(s.take(0) =~= Seq::<Member>::empty());
        assert(s.skip(0) =~= s);
    } else {
        assert(s.take(i).first() == s.first());
        assert(s.take(i).drop_first() =~= s.drop_first().take(i - 1));
        assert(s.skip(i) =~= s.drop_first().skip(i - 1));
        lemma_sum_stake_split(s.drop_first(), i - 1);
    }
}

/// The pseudo-random stake point for `round` over a committee whose total
/// stake is `total`.
pub open spec fn spec_point(round: u64, total: u64) -> int
    recommends
        total >= 1,
{
    ((round + 1) * LEADER_MIX) % (total as int)
}

/// The identity owning the stake interval that covers `point`, walking the
/// members in order.
pub open spec fn pick_by_stake(s: Seq<Member>, point: int) -> u64
    recommends
        0 <= point < sum_stake(s),
    decreases s.len(),
{
    if s.len() == 0 {
        0
    } else if point < s.first().stake {
        s.first().id
    } else {
        pick_by_stake(s.drop_first(), point - s.first().stake)
    }
}

pub proof fn lemma_pick_is_member(s: Seq<Member>, point: int)
    requires
        0 <= point < sum_stake(s),
    ensures
        exists|i: int| 0 <= i < s.len() && s[i].id == pick_by_stake(s, point),
    decreases s.len(),
{
    if point < s.first().stake {
        assert(s[0].id == pick_by_stake(s, point));
    } else {
        lemma_pick_is_member(s.drop_first(), point - s.first().stake);
        let i = choose|i: int|
            0 <= i < s.drop_first().len() && s.drop_first()[i].id == pick_by_stake(
                s.drop_first(),
                point - s.first().stake,
            );
        assert(s[i + 1].id == pick_by_stake(s, point));
    }
}

/// An immutable, stake-weighted membership snapshot.
pub struct Committee {
    /// The members, in a fixed order shared by all replicas.
    pub members: Vec<Member>,
    /// The total stake of all members.
    pub total_stake: u64,
}

impl Committee {
    /// The snapshot is internally consistent.
    pub open spec fn wf(&self) -> bool {
        &&& valid_members(self.members@)
        &&& self.total_stake == sum_stake(self.members@)
    }

    /// The leader identity this committee assigns to `round`.
    pub open spec fn spec_leader(&self, round: u64) -> u64 {
        pick_by_stake(self.members@, spec_point(round, self.total_stake))
    }

    /// Whether some member carries the identity `id`.
    pub open spec fn has_member(&self, id: u64) -> bool {
        exists|i: int| 0 <= i < self.members@.len() && self.members@[i].id == id
    }

    /// Builds a committee from a member list, computing the total stake.
    /// Returns `None` exactly when the list is empty, an identity repeats, or
    /// the total stake is zero or does not fit in a machine word.
    pub fn new(members: Vec<Member>) -> (r: Option<Committee>)
        ensures
            r is Some <==> valid_members(members@),
            r is Some ==> r.unwrap().wf() && r.unwrap().members@ == members@,
    {
        if members.len() == 0 {
            return None;
        }
        // Reject repeated identities.
        let n = members.len();
        let mut i: usize = 1;
        while i < n
            invariant
                1 <= i <= n,
                n == members@.len(),
                distinct_ids(members@.take(i as int)),
            decreases n - i,
        {
            let mut j: usize = 0;
            while j < i
                invariant
                    0 <= j <= i < n,
                    n == members@.len(),
                    forall|k: int| 0 <= k < j ==> members@[k].id != members@[i as int].id,
                decreases i - j,
            {
                if members[j].id == members[i].id {
                    proof {
                        assert(!distinct_ids(members@));
                    }
                    return None;
                }
                j += 1;
            }
            i += 1;
            proof {
                assert(distinct_ids(members@.take(i as int)));
            }
        }
        proof {
            assert(members@.take(n as int) =~= members@);
        }
        // Total the stake, rejecting overflow and an all-zero committee.
        proof {
            assert(members@.take(0) =~= Seq::<Member>::empty());
        }
        let mut total: u64 = 0;
        let mut k: usize = 0;
        while k < n
            invariant
                0 <= k <= n,
                n == members@.len(),
                total == sum_stake(members@.take(k as int)),
            decreases n - k,
        {
            proof {
                lemma_sum_stake_split(members@.take(k as int + 1), k as int);
                assert(members@.take(k as int + 1).take(k as int) =~= members@.take(k as int));
                assert(members@.take(k as int + 1).skip(k as int) =~= seq![members@[k as int]]);
                lemma_sum_stake_singleton(members@[k as int]);
            }
            let stake = members[k].stake;
            if stake > u64::MAX - total {
                proof {
                    lemma_sum_stake_split(members@, k as int + 1);
                    lemma_sum_stake_nonneg(members@.skip(k as int + 1));
                }
                return None;
            }
            total = total + stake;
            k += 1;
        }
        proof {
            assert(members@.take(n as int) =~= members@);
        }
        if total == 0 {
            return None;
        }
        Some(Committee { members, total_stake: total })
    }

    /// Returns the number of members.
    pub fn len(&self) -> (r: usize)
        ensures
            r == self.members@.len(),
    {
        self.members.len()
    }

    /// Returns the total stake of the committee.
    pub fn total_stake(&self) -> (r: u64)
        ensures
            r == self.total_stake,
    {
        self.total_stake
    }

    /// Deterministically selects the leader for `round`: the member whose
    /// cumulative stake interval covers the pseudo-random point derived from
    /// the round. Two calls with the same round and the same snapshot always
    /// return the same identity, and the result is always a member.
    pub fn leader_for(&self, round: u64) -> (r: u64)
        requires
            self.wf(),
        ensures
            r == self.spec_leader(round),
            self.has_member(r),
    {
        let prod: u128 = ((round as u128) + 1) * (LEADER_MIX as u128);
        let point_wide: u128 = prod % (self.total_stake as u128);
        let point: u64 = point_wide as u64;
        proof {
            assert(point == spec_point(round, self.total_stake));
            lemma_pick_is_member(self.members@, point as int);
            assert(self.members@.take(0) =~= Seq::<Member>::empty());
            assert(self.members@.skip(0) =~= self.members@);
        }
        let n = self.members.len();
        let mut acc: u64 = 0;
        let mut i: usize = 0;
        while i < n
            invariant
                0 <= i <= n,
                n == self.members@.len(),
                self.wf(),
                point < self.total_stake,
                acc == sum_stake(self.members@.take(i as int)),
                acc <= point,
                point - acc < sum_stake(self.members@.skip(i as int)),
                pick_by_stake(self.members@.skip(i as int), point - acc) == self.spec_leader(
                    round,
                ),
            decreases n - i,
        {
            proof {
                assert(self.members@.skip(i as int).first() == self.members@[i as int]);
                assert(self.members@.skip(i as int).drop_first() =~= self.members@.skip(
                    i as int + 1,
                ));
                lemma_sum_stake_split(self.members@.take(i as int + 1), i as int);
                assert(self.members@.take(i as int + 1).take(i as int) =~= self.members@.take(
                    i as int,
                ));
                assert(self.members@.take(i as int + 1).skip(i as int) =~= seq![
                    self.members@[i as int],
                ]);
                lemma_sum_stake_singleton(self.members@[i as int]);
                lemma_sum_stake_split(self.members@, i as int + 1);
                lemma_sum_stake_nonneg(self.members@.skip(i as int + 1));
            }
            let stake = self.members[i].stake;
            if point < acc + stake {
                return self.members[i].id;
            }
            acc = acc + stake;
            i += 1;
        }
        proof {
            assert(self.members@.skip(n as int) =~= Seq::<Member>::empty());
            assert(false);
        }
        0
    }
}

/// Leader selection is deterministic: two committees with the same members
/// and total stake assign the same leader to every round, so every replica
/// resolves the same identity for a given round and snapshot.
pub proof fn lemma_leader_deterministic(c1: &Committee, c2: &Committee, round: u64)
    requires
        c1.wf(),
        c2.wf(),
        c1.members@ == c2.members@,
        c1.total_stake == c2.total_stake,
    ensures
        c1.spec_leader(round) == c2.spec_leader(round),
{
}

} // verus!
