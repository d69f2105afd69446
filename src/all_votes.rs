use vstd::prelude::*;
use crate::chain::{ChainState, wf_chains, has_slot, slot_index, lemma_slot_index};
use crate::tips::tips_listed;
use crate::votes::LastVote;

verus! {

/// A vote seen on a walk: the validator, the voted slot, and the vote state
/// (the chain state at slot `chain_slot`, vote account `account`) that showed it.
#[derive(Clone, Copy, Debug, PartialEq, Eq, Structural)]
pub struct VoteRef {
    pub node: u64,
    pub slot: u64,
    pub chain_slot: u64,
    pub account: usize,
}

/// The first `m` votes of account `k` of chain state `i`.
pub open spec fn vote_refs(cs: Seq<ChainState>, i: int, k: int, m: int) -> Seq<VoteRef>
    decreases m,
{
    if m <= 0 {
        Seq::empty()
    } else {
        let vs = cs[i].vote_accounts@[k].vote_state;
        vote_refs(cs, i, k, m - 1).push(
            VoteRef { node: vs.node, slot: vs.votes@[m - 1].slot, chain_slot: cs[i].slot, account: k as usize },
        )
    }
}

/// The votes of the first `k` accounts of chain state `i`.
pub open spec fn state_refs(cs: Seq<ChainState>, i: int, k: int) -> Seq<VoteRef>
    decreases k,
{
    if k <= 0 {
        Seq::empty()
    } else {
        state_refs(cs, i, k - 1) + vote_refs(
            cs,
            i,
            k - 1,
            cs[i].vote_accounts@[k - 1].vote_state.votes@.len() as int,
        )
    }
}

/// The votes of every chain state from `t` back to its root, in walk order.
pub open spec fn path_refs(cs: Seq<ChainState>, t: int) -> Seq<VoteRef>
    decreases cs[t].slot,
{
    if 0 <= t < cs.len() {
        let own = state_refs(cs, t, cs[t].vote_accounts@.len() as int);
        match cs[t].parent {
            Some(p) => if p < cs.len() && cs[p as int].slot < cs[t].slot {
                own + path_refs(cs, p as int)
            } else {
                own
            },
            None => own,
        }
    } else {
        Seq::empty()
    }
}

/// The votes seen on the walks from the first `q` tips.
pub open spec fn walk_refs(cs: Seq<ChainState>, tips: Seq<usize>, q: int) -> Seq<VoteRef>
    decreases q,
{
    if q <= 0 {
        Seq::empty()
    } else {
        walk_refs(cs, tips, q - 1) + path_refs(cs, tips[q - 1] as int)
    }
}

/// The vote locates an account of the arena.
pub open spec fn locates_ref(cs: Seq<ChainState>, e: VoteRef) -> bool {
    has_slot(cs, e.chain_slot) && e.account < cs[slot_index(cs, e.chain_slot)].vote_accounts@.len()
}

/// The first vote seen of validator `n` on slot `s`.
pub open spec fn first_ref(s: Seq<VoteRef>, n: u64, slot: u64) -> Option<VoteRef>
    decreases s.len(),
{
    if s.len() == 0 {
        None
    } else {
        let prev = first_ref(s.drop_last(), n, slot);
        if prev.is_none() && s.last().node == n && s.last().slot == slot {
            Some(s.last())
        } else {
            prev
        }
    }
}

/// The order of the index: by validator, then by slot.
pub open spec fn ref_lt(a: VoteRef, b: VoteRef) -> bool {
    a.node < b.node || (a.node == b.node && a.slot < b.slot)
}

/// `r` holds, ordered by validator and slot, the first vote seen in `s` of
/// each validator and slot.
pub open spec fn refs_of(r: Seq<VoteRef>, s: Seq<VoteRef>) -> bool {
    &&& forall|k: int, l: int| 0 <= k < l < r.len() ==> ref_lt(#[trigger] r[k], #[trigger] r[l])
    &&& forall|k: int| 0 <= k < r.len() ==> first_ref(s, #[trigger] r[k].node, r[k].slot) == Some(r[k])
    &&& forall|n: u64, slot: u64| #[trigger] first_ref(s, n, slot).is_some() ==> exists|k: int|
        0 <= k < r.len() && r[k].node == n && r[k].slot == slot
}

proof fn lemma_first_ref_push(s: Seq<VoteRef>, e: VoteRef, n: u64, slot: u64)
    ensures
        first_ref(s.push(e), n, slot) == (if first_ref(s, n, slot).is_none() && e.node == n && e.slot
            == slot {
            Some(e)
        } else {
            first_ref(s, n, slot)
        }),
{
    assert(s.push(e).drop_last() =~= s);
}

fn locate_ref(r: &Vec<VoteRef>, e: VoteRef) -> (pos: usize)
    ensures
        pos <= r.len(),
        forall|q: int| 0 <= q < pos ==> ref_lt(#[trigger] r[q], e),
        pos < r.len() ==> !ref_lt(r[pos as int], e),
{
    let mut pos: usize = 0;
    while pos < r.len() && (r[pos].node < e.node || (r[pos].node == e.node && r[pos].slot < e.slot))
        invariant
            pos <= r.len(),
            forall|q: int| 0 <= q < pos ==> ref_lt(#[trigger] r[q], e),
        decreases r.len() - pos,
    {
        pos = pos + 1;
    }
    pos
}

/// Takes vote `e` into the index `r` of the votes `s`, unless its validator
/// and slot are there already.
fn absorb_ref(r: &mut Vec<VoteRef>, e: VoteRef, Ghost(s): Ghost<Seq<VoteRef>>, Ghost(cs): Ghost<Seq<ChainState>>)
    requires
        refs_of(old(r)@, s),
        locates_ref(cs, e),
        forall|k: int| 0 <= k < old(r).len() ==> locates_ref(cs, #[trigger] old(r)[k]),
    ensures
        refs_of(final(r)@, s.push(e)),
        forall|k: int| 0 <= k < final(r).len() ==> locates_ref(cs, #[trigger] final(r)[k]),
{
    let ghost r0 = r@;
    let pos = locate_ref(r, e);
    if pos < r.len() && r[pos].node == e.node && r[pos].slot == e.slot {
        proof {
            assert forall|n: u64, slot: u64| #[trigger] first_ref(s.push(e), n, slot).is_some() implies exists|k: int|
                0 <= k < r.len() && r[k].node == n && r[k].slot == slot by {
                lemma_first_ref_push(s, e, n, slot);
            }
            assert forall|k: int| 0 <= k < r.len() implies first_ref(s.push(e), #[trigger] r[k].node, r[k].slot) == Some(r[k]) by {
                lemma_first_ref_push(s, e, r[k].node, r[k].slot);
            }
        }
    } else {
        proof {
            if pos < r.len() {
                assert(ref_lt(e, r[pos as int]));
            }
            assert(first_ref(s, e.node, e.slot).is_none()) by {
                if first_ref(s, e.node, e.slot).is_some() {
                    let k = choose|k: int| 0 <= k < r.len() && r[k].node == e.node && r[k].slot == e.slot;
                    if k < pos {
                        assert(ref_lt(r[k], e));
                    } else if k > pos {
                        assert(ref_lt(r[pos as int], r[k]));
                    }
                }
            }
        }
        r.insert(pos, e);
        proof {
            assert forall|k: int| 0 <= k < r.len() implies locates_ref(cs, #[trigger] r[k]) by {
                if k < pos {
                    assert(r[k] == r0[k]);
                } else if k > pos {
                    assert(r[k] == r0[k - 1]);
                }
            }
            assert forall|k: int, l: int| 0 <= k < l < r.len() implies ref_lt(#[trigger] r[k], #[trigger] r[l]) by {
                if l < pos {
                    assert(r[k] == r0[k] && r[l] == r0[l]);
                } else if l == pos {
                    assert(r[k] == r0[k]);
                } else if k < pos {
                    assert(r[k] == r0[k] && r[l] == r0[l - 1]);
                    if l - 1 > pos {
                        assert(ref_lt(r0[pos as int], r0[l - 1]));
                    }
                } else if k == pos {
                    assert(r[l] == r0[l - 1]);
                    if l - 1 > pos {
                        assert(ref_lt(r0[pos as int], r0[l - 1]));
                    }
                } else {
                    assert(r[k] == r0[k - 1] && r[l] == r0[l - 1]);
                }
            }
            assert forall|n: u64, slot: u64| #[trigger] first_ref(s.push(e), n, slot).is_some() implies exists|k: int|
                0 <= k < r.len() && r[k].node == n && r[k].slot == slot by {
                lemma_first_ref_push(s, e, n, slot);
                if n == e.node && slot == e.slot {
                    assert(r[pos as int] == e);
                } else {
                    let k = choose|k: int| 0 <= k < r0.len() && r0[k].node == n && r0[k].slot == slot;
                    if k < pos {
                        assert(r[k] == r0[k]);
                    } else {
                        assert(r[k + 1] == r0[k]);
                    }
                }
            }
            assert forall|k: int| 0 <= k < r.len() implies first_ref(s.push(e), #[trigger] r[k].node, r[k].slot) == Some(r[k]) by {
                lemma_first_ref_push(s, e, r[k].node, r[k].slot);
                if k < pos {
                    assert(r[k] == r0[k]);
                } else if k > pos {
                    assert(r[k] == r0[k - 1]);
                }
            }
        }
    }
}


/// The all-votes index of the walks from every tip back to its root: for each
/// validator and voted slot, the first vote state seen that holds that vote.
pub fn collect_all_votes(chains: &Vec<ChainState>, tips: &Vec<usize>) -> (r: Vec<VoteRef>)
    requires
        wf_chains(chains@),
        tips_listed(chains@, tips@),
    ensures
        refs_of(r@, walk_refs(chains@, tips@, tips.len() as int)),
        forall|k: int| 0 <= k < r.len() ==> locates_ref(chains@, #[trigger] r[k]),
{
    let ghost cs = chains@;
    let mut r: Vec<VoteRef> = Vec::new();
    let ghost mut acc: Seq<VoteRef> = Seq::empty();
    let mut q: usize = 0;
    while q < tips.len()
        invariant
            cs == chains@,
            wf_chains(cs),
            tips_listed(cs, tips@),
            q <= tips.len(),
            acc == walk_refs(cs, tips@, q as int),
            refs_of(r@, acc),
            forall|k: int| 0 <= k < r.len() ==> locates_ref(cs, #[trigger] r[k]),
        decreases tips.len() - q,
    {
        let t = tips[q];
        let ghost base = acc;
        let mut cur: usize = t;
        let mut going = true;
        while going
            invariant
                cs == chains@,
                wf_chains(cs),
                cur < chains.len(),
                t < chains.len(),
                refs_of(r@, acc),
                forall|k: int| 0 <= k < r.len() ==> locates_ref(cs, #[trigger] r[k]),
                going ==> acc + path_refs(cs, cur as int) == base + path_refs(cs, t as int),
                !going ==> acc == base + path_refs(cs, t as int),
            decreases chains[cur as int].slot, if going { 1int } else { 0int },
        {
            let ghost start = acc;
            let accts = &chains[cur].vote_accounts;
            let mut k: usize = 0;
            while k < accts.len()
                invariant
                    cs == chains@,
                    wf_chains(cs),
                    cur < chains.len(),
                    accts@ == cs[cur as int].vote_accounts@,
                    k <= accts.len(),
                    refs_of(r@, acc),
                    forall|j: int| 0 <= j < r.len() ==> locates_ref(cs, #[trigger] r[j]),
                    acc == start + state_refs(cs, cur as int, k as int),
                decreases accts.len() - k,
            {
                let vs = &accts[k].vote_state;
                let ghost mid = acc;
                let mut m: usize = 0;
                while m < vs.votes.len()
                    invariant
                        cs == chains@,
                        wf_chains(cs),
                        cur < chains.len(),
                        accts@ == cs[cur as int].vote_accounts@,
                        k < accts.len(),
                        *vs == cs[cur as int].vote_accounts@[k as int].vote_state,
                        m <= vs.votes.len(),
                        refs_of(r@, acc),
                        forall|j: int| 0 <= j < r.len() ==> locates_ref(cs, #[trigger] r[j]),
                        acc == mid + vote_refs(cs, cur as int, k as int, m as int),
                    decreases vs.votes.len() - m,
                {
                    let e = VoteRef { node: vs.node, slot: vs.votes[m].slot, chain_slot: chains[cur].slot, account: k };
                    proof {
                        lemma_slot_index(cs, cur as int);
                    }
                    absorb_ref(&mut r, e, Ghost(acc), Ghost(cs));
                    proof {
                        assert(mid + vote_refs(cs, cur as int, k as int, m + 1) =~= acc.push(e));
                        acc = acc.push(e);
                    }
                    m = m + 1;
                }
                proof {
                    assert(start + state_refs(cs, cur as int, k + 1) =~= acc);
                }
                k = k + 1;
            }
            proof {
                assert(acc == start + state_refs(cs, cur as int, cs[cur as int].vote_accounts@.len() as int));
            }
            match chains[cur].parent {
                Some(p) => {
                    proof {
                        assert(path_refs(cs, cur as int) == state_refs(cs, cur as int, cs[cur as int].vote_accounts@.len() as int) + path_refs(cs, p as int));
                        assert(acc + path_refs(cs, p as int) =~= start + path_refs(cs, cur as int));
                    }
                    cur = p;
                },
                None => {
                    proof {
                        assert(path_refs(cs, cur as int) == state_refs(cs, cur as int, cs[cur as int].vote_accounts@.len() as int));
                        assert(acc =~= start + path_refs(cs, cur as int));
                    }
                    going = false;
                },
            }
        }
        proof {
            assert(walk_refs(cs, tips@, q + 1) == base + path_refs(cs, tips@[q as int] as int));
        }
        q = q + 1;
    }
    r
}


/// Some latest vote is validator `e.node`'s vote on `e.slot`.
pub open spec fn is_latest(lvs: Seq<LastVote>, e: VoteRef) -> bool {
    exists|k: int| 0 <= k < lvs.len() && #[trigger] lvs[k].node == e.node && lvs[k].slot == e.slot
}

/// The entries of `r` that are no validator's latest vote, in order.
pub open spec fn other_votes(r: Seq<VoteRef>, lvs: Seq<LastVote>) -> Seq<VoteRef>
    decreases r.len(),
{
    if r.len() == 0 {
        Seq::empty()
    } else {
        other_votes(r.drop_last(), lvs) + if is_latest(lvs, r.last()) {
            Seq::empty()
        } else {
            seq![r.last()]
        }
    }
}

fn latest_has(lvs: &Vec<LastVote>, e: VoteRef) -> (r: bool)
    ensures
        r == is_latest(lvs@, e),
{
    let mut k: usize = 0;
    while k < lvs.len()
        invariant
            k <= lvs.len(),
            forall|j: int| 0 <= j < k ==> !(#[trigger] lvs@[j].node == e.node && lvs@[j].slot == e.slot),
        decreases lvs.len() - k,
    {
        if lvs[k].node == e.node && lvs[k].slot == e.slot {
            return true;
        }
        k = k + 1;
    }
    false
}

/// The index without the votes that are some validator's latest vote.
pub fn drop_latest(index: &Vec<VoteRef>, lvs: &Vec<LastVote>, Ghost(cs): Ghost<Seq<ChainState>>) -> (r: Vec<VoteRef>)
    requires
        forall|k: int| 0 <= k < index.len() ==> locates_ref(cs, #[trigger] index[k]),
    ensures
        r@ == other_votes(index@, lvs@),
        forall|k: int| 0 <= k < r.len() ==> locates_ref(cs, #[trigger] r[k]),
{
    let mut r: Vec<VoteRef> = Vec::new();
    let mut k: usize = 0;
    while k < index.len()
        invariant
            k <= index.len(),
            forall|j: int| 0 <= j < index.len() ==> locates_ref(cs, #[trigger] index[j]),
            r@ == other_votes(index@.subrange(0, k as int), lvs@),
            forall|j: int| 0 <= j < r.len() ==> locates_ref(cs, #[trigger] r[j]),
        decreases index.len() - k,
    {
        proof {
            assert(index@.subrange(0, k + 1).drop_last() =~= index@.subrange(0, k as int));
        }
        let e = index[k];
        if !latest_has(lvs, e) {
            r.push(e);
            proof {
                assert(r@ =~= other_votes(index@.subrange(0, k + 1), lvs@));
            }
        } else {
            proof {
                assert(r@ =~= other_votes(index@.subrange(0, k + 1), lvs@));
            }
        }
        k = k + 1;
    }
    proof {
        assert(index@.subrange(0, index.len() as int) =~= index@);
    }
    r
}

} // verus!
