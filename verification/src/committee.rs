//! Stakes, quorums and the counting of votes.
use vstd::prelude::*;

use crate::keys::{AuthorityIndex, Stake};
use crate::sorted_set::SortedSet;

verus! {

/// The sum of all stakes.
pub open spec fn total_stake(stakes: Seq<u64>) -> nat
    decreases stakes.len(),
{
    if stakes.len() == 0 {
        0
    } else {
        total_stake(stakes.drop_last()) + stakes.last() as nat
    }
}

/// The stake of the authorities in a set, each counted once.
pub open spec fn stake_of(stakes: Seq<u64>, authors: Set<AuthorityIndex>) -> nat
    decreases stakes.len(),
{
    if stakes.len() == 0 {
        0
    } else {
        let last = AuthorityIndex((stakes.len() - 1) as u32);
        stake_of(stakes.drop_last(), authors) + (if authors.contains(last) {
            stakes.last() as nat
        } else {
            0
        })
    }
}

/// The greatest faulty stake that the committee tolerates: `f` out of `3f + 1`.
pub open spec fn fault_tolerance(stakes: Seq<u64>) -> nat {
    ((total_stake(stakes) - 1) / 3) as nat
}

/// The stake that makes a quorum: `2f + 1` out of `3f + 1`.
pub open spec fn quorum_threshold(stakes: Seq<u64>) -> nat {
    (total_stake(stakes) - fault_tolerance(stakes)) as nat
}

/// The authorities in a set hold a quorum.
pub open spec fn has_quorum(stakes: Seq<u64>, authors: Set<AuthorityIndex>) -> bool {
    stake_of(stakes, authors) >= quorum_threshold(stakes)
}

/// Stakes that a committee can have: some authority has stake, indices fit an
/// authority index, and the total fits a stake.
pub open spec fn usable_stakes(stakes: Seq<u64>) -> bool {
    0 < stakes.len() < u32::MAX && 0 < total_stake(stakes) <= u64::MAX
}

/// No set of authorities has more than the total stake.
pub proof fn lemma_stake_of_at_most_total(stakes: Seq<u64>, authors: Set<AuthorityIndex>)
    ensures
        stake_of(stakes, authors) <= total_stake(stakes),
    decreases stakes.len(),
{
    if stakes.len() > 0 {
        lemma_stake_of_at_most_total(stakes.drop_last(), authors);
    }
}

/// A larger set of authorities has at least as much stake.
pub proof fn lemma_stake_of_monotone(
    stakes: Seq<u64>,
    few: Set<AuthorityIndex>,
    many: Set<AuthorityIndex>,
)
    requires
        few.subset_of(many),
    ensures
        stake_of(stakes, few) <= stake_of(stakes, many),
    decreases stakes.len(),
{
    if stakes.len() > 0 {
        lemma_stake_of_monotone(stakes.drop_last(), few, many);
    }
}

/// No authority, no stake.
pub proof fn lemma_stake_of_empty(stakes: Seq<u64>)
    ensures
        stake_of(stakes, Set::empty()) == 0,
    decreases stakes.len(),
{
    if stakes.len() > 0 {
        lemma_stake_of_empty(stakes.drop_last());
    }
}

/// A further authority adds its stake.
pub proof fn lemma_stake_of_insert(
    stakes: Seq<u64>,
    authors: Set<AuthorityIndex>,
    author: AuthorityIndex,
)
    requires
        stakes.len() < u32::MAX,
        !authors.contains(author),
    ensures
        stake_of(stakes, authors.insert(author)) == stake_of(stakes, authors) + (if author.0
            < stakes.len() {
            stakes[author.0 as int] as nat
        } else {
            0
        }),
    decreases stakes.len(),
{
    if stakes.len() > 0 {
        lemma_stake_of_insert(stakes.drop_last(), authors, author);
        let last = AuthorityIndex((stakes.len() - 1) as u32);
        assert(last.0 == stakes.len() - 1);
    }
}

/// Two sets count their common authorities twice.
pub proof fn lemma_stake_of_union(
    stakes: Seq<u64>,
    a: Set<AuthorityIndex>,
    b: Set<AuthorityIndex>,
)
    ensures
        stake_of(stakes, a) + stake_of(stakes, b) == stake_of(stakes, a.union(b)) + stake_of(
            stakes,
            a.intersect(b),
        ),
    decreases stakes.len(),
{
    if stakes.len() > 0 {
        lemma_stake_of_union(stakes.drop_last(), a, b);
    }
}

/// Stakes are usable exactly where there is some stake, it fits in a number, and
/// every authority has an index below the greatest.
pub proof fn usable_stakes_are_some_and_fit(stakes: Seq<u64>)
    ensures
        usable_stakes(stakes) <==> stakes.len() < u32::MAX && total_stake(stakes) <= u64::MAX
            && exists|i: int| 0 <= i < stakes.len() && #[trigger] stakes[i] > 0,
{
    lemma_some_stake(stakes);
}

proof fn lemma_some_stake(stakes: Seq<u64>)
    ensures
        total_stake(stakes) > 0 <==> exists|i: int|
            0 <= i < stakes.len() && #[trigger] stakes[i] > 0,
    decreases stakes.len(),
{
    if stakes.len() > 0 {
        let rest = stakes.drop_last();
        lemma_some_stake(rest);
        assert(stakes[stakes.len() - 1] == stakes.last());
        if exists|i: int| 0 <= i < rest.len() && #[trigger] rest[i] > 0 {
            let i = choose|i: int| 0 <= i < rest.len() && #[trigger] rest[i] > 0;
            assert(stakes[i] > 0);
        }
        if exists|i: int| 0 <= i < stakes.len() && #[trigger] stakes[i] > 0 {
            let i = choose|i: int| 0 <= i < stakes.len() && #[trigger] stakes[i] > 0;
            if i < rest.len() {
                assert(rest[i] > 0);
            }
        }
    }
}

/// The faulty stake that is tolerated is the greatest of which three times are
/// less than all stake.
pub proof fn less_than_a_third_may_be_faulty(stakes: Seq<u64>)
    requires
        usable_stakes(stakes),
    ensures
        3 * fault_tolerance(stakes) < total_stake(stakes),
        total_stake(stakes) <= 3 * (fault_tolerance(stakes) + 1),
{
}

/// A quorum is more than two thirds of all stake.
pub proof fn quorum_is_more_than_two_thirds(stakes: Seq<u64>, authors: Set<AuthorityIndex>)
    requires
        usable_stakes(stakes),
    ensures
        has_quorum(stakes, authors) <==> 3 * stake_of(stakes, authors) > 2 * total_stake(stakes),
{
}

/// All stake is that of all authorities, and one authority's stake is what it
/// brings to any set without it.
pub proof fn stake_is_counted_per_authority(
    stakes: Seq<u64>,
    authors: Set<AuthorityIndex>,
    author: AuthorityIndex,
)
    requires
        usable_stakes(stakes),
    ensures
        stake_of(stakes, Set::empty()) == 0,
        author.0 < stakes.len() && !authors.contains(author) ==> stake_of(
            stakes,
            authors.insert(author),
        ) == stake_of(stakes, authors) + stakes[author.0 as int],
        author.0 >= stakes.len() ==> stake_of(stakes, authors.insert(author)) == stake_of(
            stakes,
            authors,
        ),
        (forall|a: AuthorityIndex| a.0 < stakes.len() ==> authors.contains(a)) ==> stake_of(
            stakes,
            authors,
        ) == total_stake(stakes),
{
    lemma_stake_of_empty(stakes);
    if !authors.contains(author) {
        lemma_stake_of_insert(stakes, authors, author);
    } else {
        assert(authors.insert(author) =~= authors);
    }
    if forall|a: AuthorityIndex| a.0 < stakes.len() ==> authors.contains(a) {
        lemma_stake_of_everyone(stakes, authors);
    }
}

/// Any two quorums have more stake in common than may be faulty, so they share
/// a correct authority.
pub proof fn quorums_intersect(stakes: Seq<u64>, a: Set<AuthorityIndex>, b: Set<AuthorityIndex>)
    requires
        usable_stakes(stakes),
        has_quorum(stakes, a),
        has_quorum(stakes, b),
    ensures
        stake_of(stakes, a.intersect(b)) > fault_tolerance(stakes),
{
    lemma_stake_of_union(stakes, a, b);
    lemma_stake_of_at_most_total(stakes, a.union(b));
}

/// The correct authorities, whose complement holds at most the tolerated
/// faulty stake, hold a quorum.
pub proof fn correct_authorities_hold_a_quorum(
    stakes: Seq<u64>,
    faulty: Set<AuthorityIndex>,
    correct: Set<AuthorityIndex>,
)
    requires
        usable_stakes(stakes),
        stake_of(stakes, faulty) <= fault_tolerance(stakes),
        forall|a: AuthorityIndex|
            a.0 < stakes.len() ==> faulty.contains(a) || #[trigger] correct.contains(a),
    ensures
        has_quorum(stakes, correct),
{
    lemma_stake_of_union(stakes, faulty, correct);
    lemma_stake_of_everyone(stakes, faulty.union(correct));
}

proof fn lemma_stake_of_everyone(stakes: Seq<u64>, authors: Set<AuthorityIndex>)
    requires
        stakes.len() < u32::MAX,
        forall|a: AuthorityIndex| a.0 < stakes.len() ==> #[trigger] authors.contains(a),
    ensures
        stake_of(stakes, authors) == total_stake(stakes),
    decreases stakes.len(),
{
    if stakes.len() > 0 {
        lemma_stake_of_everyone(stakes.drop_last(), authors);
        assert(authors.contains(AuthorityIndex((stakes.len() - 1) as u32)));
    }
}

/// The authorities of an epoch with their stakes.
pub struct Committee {
    stakes: Vec<u64>,
    quorum: u64,
}

impl View for Committee {
    type V = Seq<u64>;

    closed spec fn view(&self) -> Seq<u64> {
        self.stakes@
    }
}

impl Committee {
    #[verifier::type_invariant]
    spec fn well_formed(self) -> bool {
        &&& usable_stakes(self.stakes@)
        &&& self.quorum as nat == quorum_threshold(self.stakes@)
    }

    /// A committee with the given stakes, or nothing where they are not usable.
    pub fn new(stakes: Vec<u64>) -> (r: Option<Self>)
        ensures
            r is Some <==> usable_stakes(stakes@),
            r matches Some(c) ==> c@ == stakes@,
    {
        if stakes.len() == 0 || stakes.len() >= 0xffff_ffff {
            return None;
        }
        let mut total: u64 = 0;
        let mut i: usize = 0;
        while i < stakes.len()
            invariant
                i <= stakes@.len(),
                total as nat == total_stake(stakes@.take(i as int)),
            decreases stakes@.len() - i,
        {
            proof {
                assert(stakes@.take(i + 1).drop_last() =~= stakes@.take(i as int));
                lemma_total_stake_prefix(stakes@, i + 1);
            }
            match total.checked_add(stakes[i]) {
                Some(sum) => {
                    total = sum;
                },
                None => {
                    return None;
                },
            }
            i += 1;
        }
        assert(stakes@.take(i as int) =~= stakes@);
        if total == 0 {
            return None;
        }
        let quorum: u64 = total - (total - 1) / 3;
        Some(Committee { stakes, quorum })
    }

    /// The number of authorities.
    pub fn size(&self) -> (r: usize)
        ensures
            r == self@.len(),
            usable_stakes(self@),
    {
        proof {
            use_type_invariant(self);
        }
        self.stakes.len()
    }

    /// The stake of an authority.
    pub fn stake(&self, authority: AuthorityIndex) -> (r: Stake)
        requires
            authority.0 < self@.len(),
        ensures
            r == self@[authority.0 as int],
            usable_stakes(self@),
    {
        proof {
            use_type_invariant(self);
        }
        self.stakes[authority.0 as usize]
    }

    /// Whether a stake makes a quorum.
    pub fn reached_quorum(&self, stake: Stake) -> (r: bool)
        ensures
            r == (stake as nat >= quorum_threshold(self@)),
            usable_stakes(self@),
    {
        proof {
            use_type_invariant(self);
        }
        stake >= self.quorum
    }
}

proof fn lemma_total_stake_prefix(stakes: Seq<u64>, i: int)
    requires
        0 <= i <= stakes.len(),
    ensures
        total_stake(stakes.take(i)) <= total_stake(stakes),
    decreases stakes.len() - i,
{
    if i == stakes.len() {
        assert(stakes.take(i) =~= stakes);
    } else {
        assert(stakes.take(i + 1).drop_last() =~= stakes.take(i));
        lemma_total_stake_prefix(stakes, i + 1);
    }
}

/// Counts the stake of distinct authorities.
pub struct StakeAggregator {
    votes: SortedSet<AuthorityIndex>,
    stake: u64,
}

impl View for StakeAggregator {
    type V = Set<AuthorityIndex>;

    closed spec fn view(&self) -> Set<AuthorityIndex> {
        self.votes@
    }
}

impl StakeAggregator {
    /// The counted stake is that of the authorities that voted.
    pub closed spec fn counts(self, stakes: Seq<u64>) -> bool {
        self.stake as nat == stake_of(stakes, self.votes@)
    }

    /// Nobody has voted.
    pub fn new() -> (r: Self)
        ensures
            r@ == Set::<AuthorityIndex>::empty(),
            forall|stakes: Seq<u64>| #[trigger] r.counts(stakes),
    {
        proof {
            assert forall|stakes: Seq<u64>| stake_of(stakes, Set::empty()) == 0 by {
                lemma_stake_of_empty(stakes);
            }
        }
        StakeAggregator { votes: SortedSet::new(), stake: 0 }
    }

    /// Counts an authority once, and says whether it was new.
    pub fn add_unique(&mut self, authority: AuthorityIndex, committee: &Committee) -> (r: bool)
        requires
            old(self).counts(committee@),
            authority.0 < committee@.len(),
        ensures
            final(self).counts(committee@),
            final(self)@ == old(self)@.insert(authority),
            r == !old(self)@.contains(authority),
    {
        let stake = committee.stake(authority);
        let added = self.votes.insert(authority);
        proof {
            lemma_stake_of_at_most_total(committee@, self.votes@);
            if added {
                lemma_stake_of_insert(committee@, old(self).votes@, authority);
            } else {
                assert(old(self).votes@.insert(authority) =~= old(self).votes@);
            }
        }
        if added {
            self.stake = self.stake + stake;
        }
        added
    }

    /// The stake of the authorities that voted.
    pub fn stake(&self) -> (r: Stake)
        ensures
            forall|stakes: Seq<u64>| #[trigger]
                self.counts(stakes) ==> r as nat == stake_of(stakes, self@),
    {
        self.stake
    }

    /// Whether the authorities that voted hold a quorum.
    pub fn reached_quorum(&self, committee: &Committee) -> (r: bool)
        requires
            self.counts(committee@),
        ensures
            r == has_quorum(committee@, self@),
    {
        committee.reached_quorum(self.stake)
    }
}

} // verus!
