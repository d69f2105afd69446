use vstd::prelude::*;
use crate::chain::{ChainState, VoteAccount, wf_chains, has_slot, slot_index, lemma_slot_index};

verus! {

/// A validator's latest vote, with the stake behind it and the total stake of
/// the chain state it was found in (the slot of that chain state and the index
/// of the vote account locate its vote state).
#[derive(Clone, Copy, Debug, PartialEq, Eq, Structural)]
pub struct LastVote {
    pub node: u64,
    pub slot: u64,
    pub stake: u64,
    pub total_stake: u64,
    pub chain_slot: u64,
    pub account: usize,
}

/// Why no graph can be assembled from a snapshot.
#[derive(Clone, Copy, Debug, PartialEq, Eq, Structural)]
pub enum GraphError {
    /// A sum of stake does not fit in 64 bits.
    StakeOverflow,
    /// The validator's latest-vote candidates disagree on the total stake.
    InconsistentTotalStake(u64),
}

/// The stake of the first `k` vote accounts.
pub open spec fn stake_sum(accts: Seq<VoteAccount>, k: int) -> int
    decreases k,
{
    if k <= 0 {
        0
    } else {
        stake_sum(accts, k - 1) + accts[k - 1].stake
    }
}

/// The total stake of a chain state.
pub open spec fn chain_stake(c: ChainState) -> int {
    stake_sum(c.vote_accounts@, c.vote_accounts@.len() as int)
}

/// Every chain state's total stake fits in 64 bits.
pub open spec fn stakes_fit(cs: Seq<ChainState>) -> bool {
    forall|i: int| 0 <= i < cs.len() ==> #[trigger] chain_stake(cs[i]) <= u64::MAX
}

/// The latest-vote candidate of account `k` of chain state `i`.
pub open spec fn candidate(cs: Seq<ChainState>, i: int, k: int) -> LastVote {
    let a = cs[i].vote_accounts@[k];
    LastVote {
        node: a.vote_state.node,
        slot: a.vote_state.votes@.last().slot,
        stake: a.stake,
        total_stake: chain_stake(cs[i]) as u64,
        chain_slot: cs[i].slot,
        account: k as usize,
    }
}

/// The candidates of the first `k` accounts of chain state `i`: one for each
/// account whose vote history is not empty.
pub open spec fn account_candidates(cs: Seq<ChainState>, i: int, k: int) -> Seq<LastVote>
    decreases k,
{
    if k <= 0 {
        Seq::empty()
    } else if cs[i].vote_accounts@[k - 1].vote_state.votes@.len() > 0 {
        account_candidates(cs, i, k - 1).push(candidate(cs, i, k - 1))
    } else {
        account_candidates(cs, i, k - 1)
    }
}

/// The candidates of the first `n` chain states, in arena order.
pub open spec fn all_candidates(cs: Seq<ChainState>, n: int) -> Seq<LastVote>
    decreases n,
{
    if n <= 0 {
        Seq::empty()
    } else {
        all_candidates(cs, n - 1) + account_candidates(
            cs,
            n - 1,
            cs[n - 1].vote_accounts@.len() as int,
        )
    }
}

/// Candidate `c` is preferred to candidate `x`: its slot is greater or, on
/// equal slots, it was found first in slot order (lower chain slot, then lower
/// account index); the remaining fields only make the order total.
pub open spec fn beats(c: LastVote, x: LastVote) -> bool {
    c.slot > x.slot || (c.slot == x.slot && (c.chain_slot < x.chain_slot || (c.chain_slot
        == x.chain_slot && (c.account < x.account || (c.account == x.account && (c.stake < x.stake
        || (c.stake == x.stake && (c.total_stake < x.total_stake || (c.total_stake
        == x.total_stake && c.node < x.node)))))))))
}

/// The candidate of validator `v` that beats all its other candidates.
pub open spec fn best(s: Seq<LastVote>, v: u64) -> Option<LastVote>
    decreases s.len(),
{
    if s.len() == 0 {
        None
    } else {
        let prev = best(s.drop_last(), v);
        let c = s.last();
        if c.node == v && (prev.is_none() || beats(c, prev.unwrap())) {
            Some(c)
        } else {
            prev
        }
    }
}

/// All candidates of one validator agree on the total stake.
pub open spec fn consistent(s: Seq<LastVote>) -> bool {
    forall|a: int, b: int|
        0 <= a < s.len() && 0 <= b < s.len() && #[trigger] s[a].node == #[trigger] s[b].node
            ==> s[a].total_stake == s[b].total_stake
}

/// Validator `v`'s candidates disagree on the total stake.
pub open spec fn disagrees(s: Seq<LastVote>, v: u64) -> bool {
    exists|a: int, b: int|
        0 <= a < s.len() && 0 <= b < s.len() && #[trigger] s[a].node == v && #[trigger] s[b].node
            == v && s[a].total_stake != s[b].total_stake
}

/// `r` holds, ordered by validator, exactly the best candidate of each
/// validator that has one in `s`.
pub open spec fn last_votes_of(r: Seq<LastVote>, s: Seq<LastVote>) -> bool {
    &&& forall|k: int, l: int| 0 <= k < l < r.len() ==> #[trigger] r[k].node < #[trigger] r[l].node
    &&& forall|k: int| 0 <= k < r.len() ==> best(s, #[trigger] r[k].node) == Some(r[k])
    &&& forall|v: u64| #[trigger] best(s, v).is_some() ==> exists|k: int| 0 <= k < r.len() && r[k].node == v
}

pub proof fn lemma_best_member(s: Seq<LastVote>, v: u64)
    ensures
        best(s, v).is_none() <==> forall|a: int| 0 <= a < s.len() ==> #[trigger] s[a].node != v,
        best(s, v).is_some() ==> best(s, v).unwrap().node == v && exists|a: int|
            0 <= a < s.len() && s[a] == best(s, v).unwrap(),
    decreases s.len(),
{
    if s.len() > 0 {
        let d = s.drop_last();
        lemma_best_member(d, v);
        if best(s, v).is_none() {
            assert forall|a: int| 0 <= a < s.len() implies #[trigger] s[a].node != v by {
                if a < d.len() {
                    assert(d[a] == s[a]);
                }
            }
        }
        if best(s, v).is_some() && best(s, v) == best(d, v) {
            let a = choose|a: int| 0 <= a < d.len() && d[a] == best(d, v).unwrap();
            assert(s[a] == d[a]);
        }
        if best(s, v).is_some() && best(s, v) != best(d, v) {
            assert(s[s.len() - 1] == s.last());
        }
        if forall|a: int| 0 <= a < s.len() ==> #[trigger] s[a].node != v {
            assert forall|a: int| 0 <= a < d.len() implies #[trigger] d[a].node != v by {
                assert(d[a] == s[a]);
            }
            assert(s[s.len() - 1].node != v);
        }
    }
}

/// The total stake of each chain state, or `None` where one does not fit in 64 bits.
fn chain_totals(chains: &Vec<ChainState>) -> (r: Option<Vec<u64>>)
    ensures
        r.is_some() == stakes_fit(chains@),
        r.is_some() ==> r.unwrap().len() == chains.len() && forall|i: int|
            0 <= i < chains.len() ==> r.unwrap()[i] == chain_stake(#[trigger] chains@[i]),
{
    let mut totals: Vec<u64> = Vec::new();
    let mut i: usize = 0;
    while i < chains.len()
        invariant
            i <= chains.len(),
            totals.len() == i,
            forall|j: int| 0 <= j < i ==> totals[j] == chain_stake(#[trigger] chains@[j]),
        decreases chains.len() - i,
    {
        let accts = &chains[i].vote_accounts;
        let mut total: u64 = 0;
        let mut k: usize = 0;
        while k < accts.len()
            invariant
                i < chains.len(),
                accts@ == chains@[i as int].vote_accounts@,
                totals.len() == i,
                forall|j: int| 0 <= j < i ==> totals[j] == chain_stake(#[trigger] chains@[j]),
                k <= accts.len(),
                total == stake_sum(accts@, k as int),
            decreases accts.len() - k,
        {
            match total.checked_add(accts[k].stake) {
                Some(t) => total = t,
                None => {
                    proof {
                        lemma_stake_sum_grows(accts@, k as int + 1, accts@.len() as int);
                        assert(!stakes_fit(chains@) ) by {
                            assert(chain_stake(chains@[i as int]) > u64::MAX);
                        }
                    }
                    return None;
                },
            }
            k = k + 1;
        }
        totals.push(total);
        proof {
            assert(totals[i as int] == chain_stake(chains@[i as int]));
        }
        i = i + 1;
    }
    Some(totals)
}

proof fn lemma_stake_sum_grows(accts: Seq<VoteAccount>, k: int, m: int)
    requires
        0 <= k <= m,
    ensures
        stake_sum(accts, k) <= stake_sum(accts, m),
    decreases m - k,
{
    if k < m {
        lemma_stake_sum_grows(accts, k, m - 1);
    }
}

/// The first index whose validator is not below `v`, in a list ordered by validator.
fn locate(r: &Vec<LastVote>, v: u64) -> (pos: usize)
    ensures
        pos <= r.len(),
        forall|q: int| 0 <= q < pos ==> #[trigger] r[q].node < v,
        pos < r.len() ==> r[pos as int].node >= v,
{
    let mut pos: usize = 0;
    while pos < r.len() && r[pos].node < v
        invariant
            pos <= r.len(),
            forall|q: int| 0 <= q < pos ==> #[trigger] r[q].node < v,
        decreases r.len() - pos,
    {
        pos = pos + 1;
    }
    pos
}


proof fn lemma_best_push(s: Seq<LastVote>, c: LastVote, w: u64)
    ensures
        best(s.push(c), w) == (if c.node == w && (best(s, w).is_none() || beats(c, best(s, w).unwrap())) {
            Some(c)
        } else {
            best(s, w)
        }),
{
    assert(s.push(c).drop_last() =~= s);
}

/// Takes candidate `c` into the latest votes `r` of the candidates `s`, and
/// records in `bad` the first validator whose candidates disagree on the total stake.
fn absorb(r: &mut Vec<LastVote>, bad: &mut Option<u64>, c: LastVote, Ghost(s): Ghost<Seq<LastVote>>)
    requires
        last_votes_of(old(r)@, s),
        old(bad).is_none() == consistent(s),
        old(bad).is_some() ==> disagrees(s, old(bad).unwrap()),
    ensures
        last_votes_of(final(r)@, s.push(c)),
        final(bad).is_none() == consistent(s.push(c)),
        final(bad).is_some() ==> disagrees(s.push(c), final(bad).unwrap()),
{
    let ghost s2 = s.push(c);
    let ghost r0 = r@;
    let v = c.node;
    let pos = locate(r, v);
    proof {
        lemma_best_member(s, v);
        assert forall|a: int| 0 <= a < s.len() implies #[trigger] s2[a] == s[a] by {}
        assert(s2[s.len() as int] == c);
        if bad.is_some() {
            let w = bad.unwrap();
            let (a, b) = choose|a: int, b: int|
                0 <= a < s.len() && 0 <= b < s.len() && #[trigger] s[a].node == w
                    && #[trigger] s[b].node == w && s[a].total_stake != s[b].total_stake;
            assert(s2[a] == s[a] && s2[b] == s[b]);
        }
        if !consistent(s) {
            let (a, b) = choose|a: int, b: int|
                0 <= a < s.len() && 0 <= b < s.len() && #[trigger] s[a].node == #[trigger] s[b].node
                    && s[a].total_stake != s[b].total_stake;
            assert(s2[a] == s[a] && s2[b] == s[b]);
        }
    }
    if pos < r.len() && r[pos].node == v {
        let old_best = r[pos];
        proof {
            assert(best(s, v) == Some(old_best));
            let a0 = choose|a: int| 0 <= a < s.len() && s[a] == best(s, v).unwrap();
            assert(s2[a0] == old_best);
            if old_best.total_stake == c.total_stake && consistent(s) {
                assert forall|a: int, b: int|
                    0 <= a < s2.len() && 0 <= b < s2.len() && #[trigger] s2[a].node
                        == #[trigger] s2[b].node implies s2[a].total_stake == s2[b].total_stake by {
                    if a < s.len() && s2[a].node == v {
                        assert(s[a].node == s[a0].node);
                    }
                    if b < s.len() && s2[b].node == v {
                        assert(s[b].node == s[a0].node);
                    }
                }
            }
            if old_best.total_stake != c.total_stake {
                assert(s2[a0].node == v && s2[s.len() as int].node == v);
            }
        }
        if old_best.total_stake != c.total_stake && bad.is_none() {
            *bad = Some(v);
        }
        if c.slot > old_best.slot || (c.slot == old_best.slot && (c.chain_slot < old_best.chain_slot
            || (c.chain_slot == old_best.chain_slot && (c.account < old_best.account || (c.account
            == old_best.account && (c.stake < old_best.stake || (c.stake == old_best.stake && (
            c.total_stake < old_best.total_stake || (c.total_stake == old_best.total_stake
            && c.node < old_best.node))))))))) {
            r.set(pos, c);
        }
        proof {
            assert forall|w: u64| #[trigger] best(s2, w).is_some() implies exists|k: int|
                0 <= k < r.len() && r[k].node == w by {
                lemma_best_push(s, c, w);
                if w != v {
                    let k = choose|k: int| 0 <= k < r0.len() && r0[k].node == w;
                    assert(r[k].node == w);
                } else {
                    assert(r[pos as int].node == w);
                }
            }
            assert forall|k: int| 0 <= k < r.len() implies best(s2, #[trigger] r[k].node) == Some(
                r[k],
            ) by {
                lemma_best_push(s, c, r[k].node);
            }
        }
    } else {
        proof {
            assert forall|a: int, b: int|
                0 <= a < s2.len() && 0 <= b < s2.len() && #[trigger] s2[a].node
                    == #[trigger] s2[b].node && consistent(s) implies s2[a].total_stake
                == s2[b].total_stake by {
                if a < s.len() {
                    assert(s[a].node == s2[a].node);
                }
                if b < s.len() {
                    assert(s[b].node == s2[b].node);
                }
            }
            if pos < r.len() {
                assert(r[pos as int].node > v);
            }
        }
        r.insert(pos, c);
        proof {
            assert forall|k: int, l: int| 0 <= k < l < r.len() implies #[trigger] r[k].node
                < #[trigger] r[l].node by {
                if l < pos {
                    assert(r[k] == r0[k] && r[l] == r0[l]);
                } else if l == pos {
                    assert(r[k] == r0[k]);
                } else if k < pos {
                    assert(r[k] == r0[k] && r[l] == r0[l - 1]);
                } else if k == pos {
                    assert(r[l] == r0[l - 1]);
                    assert(r0[pos as int].node >= v);
                } else {
                    assert(r[k] == r0[k - 1] && r[l] == r0[l - 1]);
                }
            }
            assert forall|w: u64| #[trigger] best(s2, w).is_some() implies exists|k: int|
                0 <= k < r.len() && r[k].node == w by {
                lemma_best_push(s, c, w);
                if w != v {
                    let k = choose|k: int| 0 <= k < r0.len() && r0[k].node == w;
                    if k < pos {
                        assert(r[k].node == w);
                    } else {
                        assert(r[k + 1].node == w);
                    }
                } else {
                    assert(r[pos as int].node == w);
                }
            }
            assert forall|k: int| 0 <= k < r.len() implies best(s2, #[trigger] r[k].node) == Some(
                r[k],
            ) by {
                lemma_best_push(s, c, r[k].node);
                if k < pos {
                    assert(r[k] == r0[k]);
                } else if k > pos {
                    assert(r[k] == r0[k - 1]);
                }
            }
        }
    }
}


/// Each validator's latest vote across every chain state of the snapshot,
/// ordered by validator. Fails where a chain state's total stake does not fit
/// in 64 bits, or where a validator's candidates disagree on the total stake.
pub fn last_votes(chains: &Vec<ChainState>) -> (r: Result<Vec<LastVote>, GraphError>)
    ensures
        !stakes_fit(chains@) ==> r == Err::<Vec<LastVote>, GraphError>(GraphError::StakeOverflow),
        r.is_ok() == (stakes_fit(chains@) && consistent(
            all_candidates(chains@, chains.len() as int),
        )),
        r.is_ok() ==> last_votes_of(r.unwrap()@, all_candidates(chains@, chains.len() as int)),
        r matches Err(GraphError::StakeOverflow) ==> !stakes_fit(chains@),
        r matches Err(GraphError::InconsistentTotalStake(v)) ==> disagrees(
            all_candidates(chains@, chains.len() as int),
            v,
        ),
{
    let ghost cs = chains@;
    let totals = match chain_totals(chains) {
        Some(t) => t,
        None => return Err(GraphError::StakeOverflow),
    };
    let mut r: Vec<LastVote> = Vec::new();
    let mut bad: Option<u64> = None;
    let mut i: usize = 0;
    while i < chains.len()
        invariant
            cs == chains@,
            stakes_fit(cs),
            i <= chains.len(),
            totals.len() == chains.len(),
            forall|j: int| 0 <= j < chains.len() ==> totals[j] == chain_stake(#[trigger] cs[j]),
            last_votes_of(r@, all_candidates(cs, i as int)),
            bad.is_none() == consistent(all_candidates(cs, i as int)),
            bad.is_some() ==> disagrees(all_candidates(cs, i as int), bad.unwrap()),
        decreases chains.len() - i,
    {
        let accts = &chains[i].vote_accounts;
        let mut k: usize = 0;
        while k < accts.len()
            invariant
                cs == chains@,
                i < chains.len(),
                accts@ == cs[i as int].vote_accounts@,
                totals.len() == chains.len(),
                totals[i as int] == chain_stake(cs[i as int]),
                k <= accts.len(),
                last_votes_of(r@, all_candidates(cs, i as int) + account_candidates(cs, i as int, k as int)),
                bad.is_none() == consistent(all_candidates(cs, i as int) + account_candidates(cs, i as int, k as int)),
                bad.is_some() ==> disagrees(all_candidates(cs, i as int) + account_candidates(cs, i as int, k as int), bad.unwrap()),
            decreases accts.len() - k,
        {
            let ghost s = all_candidates(cs, i as int) + account_candidates(cs, i as int, k as int);
            let a = &accts[k];
            let n_votes = a.vote_state.votes.len();
            if n_votes > 0 {
                let c = LastVote {
                    node: a.vote_state.node,
                    slot: a.vote_state.votes[n_votes - 1].slot,
                    stake: a.stake,
                    total_stake: totals[i],
                    chain_slot: chains[i].slot,
                    account: k,
                };
                proof {
                    assert(c == candidate(cs, i as int, k as int));
                    assert(all_candidates(cs, i as int) + account_candidates(cs, i as int, k + 1)
                        =~= s.push(c));
                }
                absorb(&mut r, &mut bad, c, Ghost(s));
            } else {
                proof {
                    assert(all_candidates(cs, i as int) + account_candidates(cs, i as int, k + 1)
                        =~= s);
                }
            }
            k = k + 1;
        }
        proof {
            assert(all_candidates(cs, i + 1) == all_candidates(cs, i as int) + account_candidates(
                cs,
                i as int,
                accts@.len() as int,
            ));
        }
        i = i + 1;
    }
    match bad {
        Some(v) => Err(GraphError::InconsistentTotalStake(v)),
        None => Ok(r),
    }
}


/// The candidate locates an account of the arena whose vote history is not empty.
pub open spec fn locates_vote(cs: Seq<ChainState>, c: LastVote) -> bool {
    &&& has_slot(cs, c.chain_slot)
    &&& c.account < cs[slot_index(cs, c.chain_slot)].vote_accounts@.len()
    &&& cs[slot_index(cs, c.chain_slot)].vote_accounts@[c.account as int].vote_state.votes@.len() > 0
}

proof fn lemma_candidates_locate(cs: Seq<ChainState>, n: int)
    requires
        wf_chains(cs),
        cs.len() <= usize::MAX,
        0 <= n <= cs.len(),
    ensures
        forall|q: int| 0 <= q < all_candidates(cs, n).len() ==> locates_vote(cs, #[trigger] all_candidates(cs, n)[q]),
    decreases n,
{
    if n > 0 {
        lemma_candidates_locate(cs, n - 1);
        lemma_account_candidates_locate(cs, n - 1, cs[n - 1].vote_accounts@.len() as int);
        let a = all_candidates(cs, n - 1);
        let b = account_candidates(cs, n - 1, cs[n - 1].vote_accounts@.len() as int);
        assert forall|q: int| 0 <= q < (a + b).len() implies locates_vote(cs, #[trigger] (a + b)[q]) by {
            if q < a.len() {
                assert((a + b)[q] == a[q]);
            } else {
                assert((a + b)[q] == b[q - a.len()]);
            }
        }
    }
}

proof fn lemma_account_candidates_locate(cs: Seq<ChainState>, i: int, k: int)
    requires
        wf_chains(cs),
        cs.len() <= usize::MAX,
        0 <= i < cs.len(),
        0 <= k <= cs[i].vote_accounts@.len(),
    ensures
        forall|q: int| 0 <= q < account_candidates(cs, i, k).len() ==> locates_vote(cs, #[trigger] account_candidates(cs, i, k)[q]),
    decreases k,
{
    if k > 0 {
        lemma_account_candidates_locate(cs, i, k - 1);
        assert(cs[i].vote_accounts.len() == cs[i].vote_accounts@.len());
        let prev = account_candidates(cs, i, k - 1);
        if cs[i].vote_accounts@[k - 1].vote_state.votes@.len() > 0 {
            let c = candidate(cs, i, k - 1);
            lemma_slot_index(cs, i);
            assert(c.chain_slot == cs[i].slot && c.account as int == k - 1);
            assert forall|q: int| 0 <= q < prev.push(c).len() implies locates_vote(cs, #[trigger] prev.push(c)[q]) by {
                if q < prev.len() {
                    assert(prev.push(c)[q] == prev[q]);
                }
            }
        }
    }
}

/// Each latest vote locates a non-empty vote history of the arena.
pub proof fn lemma_last_votes_locate(cs: Seq<ChainState>, r: Seq<LastVote>)
    requires
        wf_chains(cs),
        cs.len() <= usize::MAX,
        last_votes_of(r, all_candidates(cs, cs.len() as int)),
    ensures
        forall|k: int| 0 <= k < r.len() ==> locates_vote(cs, #[trigger] r[k]),
{
    let s = all_candidates(cs, cs.len() as int);
    lemma_candidates_locate(cs, cs.len() as int);
    assert forall|k: int| 0 <= k < r.len() implies locates_vote(cs, #[trigger] r[k]) by {
        lemma_best_member(s, r[k].node);
        let q = choose|q: int| 0 <= q < s.len() && s[q] == best(s, r[k].node).unwrap();
        assert(locates_vote(cs, s[q]));
    }
}

} // verus!
