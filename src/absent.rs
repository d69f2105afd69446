use vstd::prelude::*;
use crate::chain::ChainState;
use crate::votes::LastVote;
use crate::walk::{on_fork, ordered_nodes};

verus! {

/// Some rendered chain state sits at slot `s`.
pub open spec fn slot_rendered(cs: Seq<ChainState>, s: u64) -> bool {
    exists|i: int| 0 <= i < cs.len() && on_fork(cs, i) && #[trigger] cs[i].slot == s
}

/// The stake behind all latest votes.
pub open spec fn lv_stake(lvs: Seq<LastVote>) -> int
    decreases lvs.len(),
{
    if lvs.len() == 0 {
        0
    } else {
        lv_stake(lvs.drop_last()) + lvs.last().stake
    }
}

/// The stake behind the latest votes whose slot is rendered.
pub open spec fn stake_on(cs: Seq<ChainState>, lvs: Seq<LastVote>) -> int
    decreases lvs.len(),
{
    if lvs.len() == 0 {
        0
    } else {
        stake_on(cs, lvs.drop_last()) + if slot_rendered(cs, lvs.last().slot) {
            lvs.last().stake as int
        } else {
            0
        }
    }
}

/// The stake behind the latest votes whose slot is absent from the graph.
pub open spec fn stake_off(cs: Seq<ChainState>, lvs: Seq<LastVote>) -> int
    decreases lvs.len(),
{
    if lvs.len() == 0 {
        0
    } else {
        stake_off(cs, lvs.drop_last()) + if slot_rendered(cs, lvs.last().slot) {
            0
        } else {
            lvs.last().stake as int
        }
    }
}

/// The number of latest votes whose slot is absent from the graph.
pub open spec fn count_off(cs: Seq<ChainState>, lvs: Seq<LastVote>) -> int
    decreases lvs.len(),
{
    if lvs.len() == 0 {
        0
    } else {
        count_off(cs, lvs.drop_last()) + if slot_rendered(cs, lvs.last().slot) {
            0int
        } else {
            1int
        }
    }
}

/// The absent latest vote with the lowest slot, the first one on ties.
pub open spec fn lowest_off(cs: Seq<ChainState>, lvs: Seq<LastVote>) -> Option<LastVote>
    decreases lvs.len(),
{
    if lvs.len() == 0 {
        None
    } else {
        let prev = lowest_off(cs, lvs.drop_last());
        let c = lvs.last();
        if !slot_rendered(cs, c.slot) && (prev.is_none() || c.slot < prev.unwrap().slot) {
            Some(c)
        } else {
            prev
        }
    }
}

/// The stake behind the latest votes at slot `s`.
pub open spec fn stake_at(lvs: Seq<LastVote>, s: u64) -> int
    decreases lvs.len(),
{
    if lvs.len() == 0 {
        0
    } else {
        stake_at(lvs.drop_last(), s) + if lvs.last().slot == s {
            lvs.last().stake as int
        } else {
            0
        }
    }
}

/// The number of latest votes at slot `s`.
pub open spec fn count_at(lvs: Seq<LastVote>, s: u64) -> int
    decreases lvs.len(),
{
    if lvs.len() == 0 {
        0
    } else {
        count_at(lvs.drop_last(), s) + if lvs.last().slot == s {
            1int
        } else {
            0int
        }
    }
}

/// The first latest vote at slot `s`.
pub open spec fn first_at(lvs: Seq<LastVote>, s: u64) -> Option<LastVote>
    decreases lvs.len(),
{
    if lvs.len() == 0 {
        None
    } else {
        let prev = first_at(lvs.drop_last(), s);
        if prev.is_none() && lvs.last().slot == s {
            Some(lvs.last())
        } else {
            prev
        }
    }
}

/// The latest votes at one slot: how many, their stake, and the total stake
/// of the first of them (the denominator of the percentage).
#[derive(Clone, Copy, Debug, PartialEq, Eq, Structural)]
pub struct SlotVotes {
    pub votes: u64,
    pub stake: u64,
    pub total_stake: u64,
}

/// The latest votes whose slot is not rendered: how many, their stake, and
/// the total stake of the one with the lowest slot (zero where there is none).
#[derive(Clone, Copy, Debug, PartialEq, Eq, Structural)]
pub struct AbsentBucket {
    pub votes: u64,
    pub stake: u64,
    pub total_stake: u64,
}

proof fn lemma_sums_bounded(lvs: Seq<LastVote>, cs: Seq<ChainState>, s: u64)
    ensures
        0 <= stake_at(lvs, s) <= lv_stake(lvs),
        0 <= stake_on(cs, lvs) <= lv_stake(lvs),
        0 <= stake_off(cs, lvs) <= lv_stake(lvs),
        0 <= count_at(lvs, s) <= lvs.len(),
        0 <= count_off(cs, lvs) <= lvs.len(),
        stake_on(cs, lvs) + stake_off(cs, lvs) == lv_stake(lvs),
    decreases lvs.len(),
{
    if lvs.len() > 0 {
        lemma_sums_bounded(lvs.drop_last(), cs, s);
    }
}

/// The stake shown on the nodes `nodes`: for each, the stake behind the
/// latest votes at its slot.
pub open spec fn shown_stake(cs: Seq<ChainState>, nodes: Seq<usize>, lvs: Seq<LastVote>) -> int
    decreases nodes.len(),
{
    if nodes.len() == 0 {
        0
    } else {
        shown_stake(cs, nodes.drop_last(), lvs) + stake_at(lvs, cs[nodes.last() as int].slot)
    }
}

/// The number of latest votes shown on the nodes `nodes`: for each, the number
/// of latest votes at its slot.
pub open spec fn shown_votes(cs: Seq<ChainState>, nodes: Seq<usize>, lvs: Seq<LastVote>) -> int
    decreases nodes.len(),
{
    if nodes.len() == 0 {
        0
    } else {
        shown_votes(cs, nodes.drop_last(), lvs) + count_at(lvs, cs[nodes.last() as int].slot)
    }
}

proof fn lemma_shown_votes_push(cs: Seq<ChainState>, nodes: Seq<usize>, lvs: Seq<LastVote>, c: LastVote)
    ensures
        shown_votes(cs, nodes, lvs.push(c)) == shown_votes(cs, nodes, lvs) + slot_hits(cs, nodes, c.slot, 1),
        lvs.len() == 0 ==> shown_votes(cs, nodes, lvs) == 0,
    decreases nodes.len(),
{
    assert(lvs.push(c).drop_last() =~= lvs);
    if nodes.len() > 0 {
        lemma_shown_votes_push(cs, nodes.drop_last(), lvs, c);
    }
}

proof fn lemma_votes_conserved(cs: Seq<ChainState>, nodes: Seq<usize>, lvs: Seq<LastVote>)
    requires
        ordered_nodes(cs, nodes),
    ensures
        shown_votes(cs, nodes, lvs) + count_off(cs, lvs) == lvs.len(),
    decreases lvs.len(),
{
    if lvs.len() == 0 {
        lemma_shown_votes_push(cs, nodes, lvs, arbitrary());
    } else {
        let d = lvs.drop_last();
        let c = lvs.last();
        lemma_votes_conserved(cs, nodes, d);
        assert(d.push(c) =~= lvs);
        lemma_shown_votes_push(cs, nodes, d, c);
        lemma_hits_once(cs, nodes, c.slot, 1);
        if slot_rendered(cs, c.slot) {
            let i = choose|i: int| 0 <= i < cs.len() && on_fork(cs, i) && #[trigger] cs[i].slot == c.slot;
            let k = choose|k: int| 0 <= k < nodes.len() && nodes[k] == i;
            assert(cs[nodes[k] as int].slot == c.slot);
        }
        if exists|k: int| 0 <= k < nodes.len() && #[trigger] cs[nodes[k] as int].slot == c.slot {
            let k = choose|k: int| 0 <= k < nodes.len() && #[trigger] cs[nodes[k] as int].slot == c.slot;
            assert(on_fork(cs, nodes[k] as int));
        }
    }
}

/// `x` for each node of `nodes` at slot `s`.
spec fn slot_hits(cs: Seq<ChainState>, nodes: Seq<usize>, s: u64, x: int) -> int
    decreases nodes.len(),
{
    if nodes.len() == 0 {
        0
    } else {
        slot_hits(cs, nodes.drop_last(), s, x) + if cs[nodes.last() as int].slot == s {
            x
        } else {
            0
        }
    }
}

proof fn lemma_shown_push(cs: Seq<ChainState>, nodes: Seq<usize>, lvs: Seq<LastVote>, c: LastVote)
    ensures
        shown_stake(cs, nodes, lvs.push(c)) == shown_stake(cs, nodes, lvs) + slot_hits(
            cs,
            nodes,
            c.slot,
            c.stake as int,
        ),
    decreases nodes.len(),
{
    assert(lvs.push(c).drop_last() =~= lvs);
    if nodes.len() > 0 {
        lemma_shown_push(cs, nodes.drop_last(), lvs, c);
    }
}

proof fn lemma_hits_once(cs: Seq<ChainState>, nodes: Seq<usize>, s: u64, x: int)
    requires
        forall|k: int, l: int|
            0 <= k < l < nodes.len() ==> #[trigger] cs[nodes[k] as int].slot
                < #[trigger] cs[nodes[l] as int].slot,
    ensures
        slot_hits(cs, nodes, s, x) == if exists|k: int| 0 <= k < nodes.len() && #[trigger] cs[nodes[k] as int].slot == s {
            x
        } else {
            0
        },
    decreases nodes.len(),
{
    if nodes.len() > 0 {
        let d = nodes.drop_last();
        assert forall|k: int, l: int|
            0 <= k < l < d.len() implies #[trigger] cs[d[k] as int].slot
                < #[trigger] cs[d[l] as int].slot by {
            assert(d[k] == nodes[k] && d[l] == nodes[l]);
        }
        lemma_hits_once(cs, d, s, x);
        let last = nodes.len() - 1;
        if cs[nodes[last] as int].slot == s {
            assert forall|k: int| 0 <= k < d.len() implies #[trigger] cs[d[k] as int].slot != s by {
                assert(d[k] == nodes[k]);
                assert(cs[nodes[k] as int].slot < cs[nodes[last] as int].slot);
            }
        } else {
            if exists|k: int| 0 <= k < nodes.len() && #[trigger] cs[nodes[k] as int].slot == s {
                let k = choose|k: int| 0 <= k < nodes.len() && #[trigger] cs[nodes[k] as int].slot == s;
                assert(d[k] == nodes[k]);
            }
            if exists|k: int| 0 <= k < d.len() && #[trigger] cs[d[k] as int].slot == s {
                let k = choose|k: int| 0 <= k < d.len() && #[trigger] cs[d[k] as int].slot == s;
                assert(d[k] == nodes[k]);
            }
        }
    }
}

proof fn lemma_shown_is_on(cs: Seq<ChainState>, nodes: Seq<usize>, lvs: Seq<LastVote>)
    requires
        ordered_nodes(cs, nodes),
    ensures
        shown_stake(cs, nodes, lvs) == stake_on(cs, lvs),
    decreases lvs.len(),
{
    if lvs.len() == 0 {
        lemma_shown_empty(cs, nodes, lvs);
    } else {
        let d = lvs.drop_last();
        let c = lvs.last();
        lemma_shown_is_on(cs, nodes, d);
        assert(d.push(c) =~= lvs);
        lemma_shown_push(cs, nodes, d, c);
        lemma_hits_once(cs, nodes, c.slot, c.stake as int);
        if slot_rendered(cs, c.slot) {
            let i = choose|i: int| 0 <= i < cs.len() && on_fork(cs, i) && #[trigger] cs[i].slot == c.slot;
            let k = choose|k: int| 0 <= k < nodes.len() && nodes[k] == i;
            assert(cs[nodes[k] as int].slot == c.slot);
        }
        if exists|k: int| 0 <= k < nodes.len() && #[trigger] cs[nodes[k] as int].slot == c.slot {
            let k = choose|k: int| 0 <= k < nodes.len() && #[trigger] cs[nodes[k] as int].slot == c.slot;
            assert(on_fork(cs, nodes[k] as int));
        }
    }
}

proof fn lemma_shown_empty(cs: Seq<ChainState>, nodes: Seq<usize>, lvs: Seq<LastVote>)
    requires
        lvs.len() == 0,
    ensures
        shown_stake(cs, nodes, lvs) == 0,
    decreases nodes.len(),
{
    if nodes.len() > 0 {
        lemma_shown_empty(cs, nodes.drop_last(), lvs);
    }
}

/// The stake shown on the rendered nodes and the absent stake add up to the
/// stake behind all latest votes, and likewise the votes shown on the nodes
/// and the absent votes add up to the number of latest votes.
pub proof fn lemma_stake_conservation(cs: Seq<ChainState>, nodes: Seq<usize>, lvs: Seq<LastVote>)
    requires
        ordered_nodes(cs, nodes),
    ensures
        shown_stake(cs, nodes, lvs) + stake_off(cs, lvs) == lv_stake(lvs),
        shown_votes(cs, nodes, lvs) + count_off(cs, lvs) == lvs.len(),
{
    lemma_sums_bounded(lvs, cs, 0);
    lemma_shown_is_on(cs, nodes, lvs);
    lemma_votes_conserved(cs, nodes, lvs);
}

/// Whether the stake behind all latest votes fits in 64 bits.
pub fn stake_fits(lvs: &Vec<LastVote>) -> (r: bool)
    ensures
        r == (lv_stake(lvs@) <= u64::MAX),
{
    let mut total: u64 = 0;
    let mut k: usize = 0;
    while k < lvs.len()
        invariant
            k <= lvs.len(),
            total == lv_stake(lvs@.subrange(0, k as int)),
        decreases lvs.len() - k,
    {
        proof {
            assert(lvs@.subrange(0, k + 1).drop_last() =~= lvs@.subrange(0, k as int));
        }
        match total.checked_add(lvs[k].stake) {
            Some(t) => total = t,
            None => {
                proof {
                    lemma_prefix_stake(lvs@, k as int + 1);
                    assert(lvs@.subrange(0, lvs.len() as int) =~= lvs@);
                }
                return false;
            },
        }
        k = k + 1;
    }
    proof {
        assert(lvs@.subrange(0, lvs.len() as int) =~= lvs@);
    }
    true
}

proof fn lemma_prefix_stake(lvs: Seq<LastVote>, k: int)
    requires
        0 <= k <= lvs.len(),
    ensures
        lv_stake(lvs.subrange(0, k)) <= lv_stake(lvs),
    decreases lvs.len() - k,
{
    if k < lvs.len() {
        lemma_prefix_stake(lvs, k + 1);
        assert(lvs.subrange(0, k + 1).drop_last() =~= lvs.subrange(0, k));
    } else {
        assert(lvs.subrange(0, k) =~= lvs);
    }
}

/// The latest votes at slot `s`, or `None` where there are none.
pub fn slot_votes(lvs: &Vec<LastVote>, s: u64) -> (r: Option<SlotVotes>)
    requires
        lv_stake(lvs@) <= u64::MAX,
    ensures
        r is None <==> count_at(lvs@, s) == 0,
        r is Some ==> r.unwrap().votes == count_at(lvs@, s) && r.unwrap().stake == stake_at(
            lvs@,
            s,
        ) && r.unwrap().total_stake == first_at(lvs@, s).unwrap().total_stake,
{
    let mut votes: u64 = 0;
    let mut stake: u64 = 0;
    let mut total: Option<u64> = None;
    let mut k: usize = 0;
    while k < lvs.len()
        invariant
            lv_stake(lvs@) <= u64::MAX,
            k <= lvs.len(),
            votes == count_at(lvs@.subrange(0, k as int), s),
            stake == stake_at(lvs@.subrange(0, k as int), s),
            total is None <==> first_at(lvs@.subrange(0, k as int), s) is None,
            total is Some ==> total.unwrap() == first_at(lvs@.subrange(0, k as int), s).unwrap().total_stake,
            total is None <==> votes == 0,
        decreases lvs.len() - k,
    {
        let ghost pre = lvs@.subrange(0, k + 1);
        proof {
            assert(pre.drop_last() =~= lvs@.subrange(0, k as int));
            lemma_prefix_stake(lvs@, k + 1);
            lemma_sums_bounded(pre, Seq::empty(), s);
        }
        if lvs[k].slot == s {
            votes = votes + 1;
            stake = stake + lvs[k].stake;
            if total.is_none() {
                total = Some(lvs[k].total_stake);
            }
        }
        k = k + 1;
    }
    proof {
        assert(lvs@.subrange(0, lvs.len() as int) =~= lvs@);
    }
    match total {
        Some(t) => Some(SlotVotes { votes, stake, total_stake: t }),
        None => None,
    }
}

/// Whether some node of `nodes` sits at slot `s`.
pub fn slot_in(chains: &Vec<ChainState>, nodes: &Vec<usize>, s: u64) -> (r: bool)
    requires
        ordered_nodes(chains@, nodes@),
    ensures
        r == slot_rendered(chains@, s),
{
    let mut k: usize = 0;
    while k < nodes.len()
        invariant
            ordered_nodes(chains@, nodes@),
            k <= nodes.len(),
            forall|l: int| 0 <= l < k ==> chains@[#[trigger] nodes@[l] as int].slot != s,
        decreases nodes.len() - k,
    {
        if chains[nodes[k]].slot == s {
            proof {
                assert(on_fork(chains@, nodes@[k as int] as int));
            }
            return true;
        }
        k = k + 1;
    }
    proof {
        if slot_rendered(chains@, s) {
            let i = choose|i: int| 0 <= i < chains.len() && on_fork(chains@, i) && #[trigger] chains@[i].slot == s;
            let l = choose|l: int| 0 <= l < nodes.len() && nodes@[l] == i;
            assert(chains@[nodes@[l] as int].slot == s);
        }
    }
    false
}

/// The latest votes whose slot is not rendered.
pub fn absent_bucket(chains: &Vec<ChainState>, nodes: &Vec<usize>, lvs: &Vec<LastVote>) -> (r: AbsentBucket)
    requires
        ordered_nodes(chains@, nodes@),
        lv_stake(lvs@) <= u64::MAX,
    ensures
        r.votes == count_off(chains@, lvs@),
        r.stake == stake_off(chains@, lvs@),
        r.total_stake == match lowest_off(chains@, lvs@) {
            Some(l) => l.total_stake,
            None => 0,
        },
{
    let ghost cs = chains@;
    let mut votes: u64 = 0;
    let mut stake: u64 = 0;
    let mut lowest: Option<LastVote> = None;
    let mut k: usize = 0;
    while k < lvs.len()
        invariant
            cs == chains@,
            ordered_nodes(cs, nodes@),
            lv_stake(lvs@) <= u64::MAX,
            k <= lvs.len(),
            votes == count_off(cs, lvs@.subrange(0, k as int)),
            stake == stake_off(cs, lvs@.subrange(0, k as int)),
            lowest == lowest_off(cs, lvs@.subrange(0, k as int)),
        decreases lvs.len() - k,
    {
        let ghost pre = lvs@.subrange(0, k + 1);
        proof {
            assert(pre.drop_last() =~= lvs@.subrange(0, k as int));
            lemma_prefix_stake(lvs@, k + 1);
            lemma_sums_bounded(pre, cs, 0);
        }
        let lv = lvs[k];
        if !slot_in(chains, nodes, lv.slot) {
            votes = votes + 1;
            stake = stake + lv.stake;
            match lowest {
                Some(l) => {
                    if lv.slot < l.slot {
                        lowest = Some(lv);
                    }
                },
                None => {
                    lowest = Some(lv);
                },
            }
        }
        k = k + 1;
    }
    proof {
        assert(lvs@.subrange(0, lvs.len() as int) =~= lvs@);
    }
    let total_stake = match lowest {
        Some(l) => l.total_stake,
        None => 0,
    };
    AbsentBucket { votes, stake, total_stake }
}

} // verus!
