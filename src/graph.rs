use vstd::prelude::*;
use crate::chain::{ChainState, wf_chains, is_tip};
use crate::mode::GraphConfig;
use crate::tips::{fork_tips, tips_listed};
use crate::votes::{LastVote, GraphError, last_votes, last_votes_of, all_candidates, best, stakes_fit, consistent, disagrees, lemma_last_votes_locate};
use crate::walk::{fork_nodes, ordered_nodes, on_fork};
use crate::all_votes::{VoteRef, collect_all_votes, refs_of, walk_refs, first_ref};
use crate::absent::{lv_stake, stake_fits};
use crate::render::{graph_text, assemble_graph};

verus! {

/// Strictly increasing.
pub open spec fn increasing(a: Seq<int>) -> bool {
    forall|k: int, l: int| 0 <= k < l < a.len() ==> #[trigger] a[k] < #[trigger] a[l]
}

/// Every element of `a` is in `b`.
pub open spec fn within(a: Seq<int>, b: Seq<int>) -> bool {
    forall|k: int| 0 <= k < a.len() ==> #[trigger] b.contains(a[k])
}

/// Two strictly increasing sequences with the same elements are equal.
pub proof fn lemma_increasing_unique(a: Seq<int>, b: Seq<int>)
    requires
        increasing(a),
        increasing(b),
        within(a, b),
        within(b, a),
    ensures
        a == b,
    decreases a.len(),
{
    if a.len() == 0 {
        if b.len() > 0 {
            assert(a.contains(b[0]));
        }
        assert(a =~= b);
    } else {
        assert(b.contains(a[0]));
        let j = choose|l: int| 0 <= l < b.len() && b[l] == a[0];
        assert(a.contains(b[0]));
        let i = choose|k: int| 0 <= k < a.len() && a[k] == b[0];
        if j > 0 {
            assert(b[0] < b[j]);
            if i > 0 {
                assert(a[0] < a[i]);
            }
        }
        assert(a[0] == b[0]);
        let a1 = a.subrange(1, a.len() as int);
        let b1 = b.subrange(1, b.len() as int);
        assert forall|k: int| 0 <= k < a1.len() implies #[trigger] b1.contains(a1[k]) by {
            assert(a1[k] == a[k + 1]);
            assert(a[0] < a[k + 1]);
            assert(b.contains(a[k + 1]));
            let l = choose|l: int| 0 <= l < b.len() && b[l] == a[k + 1];
            assert(l != 0);
            assert(b1[l - 1] == b[l]);
        }
        assert forall|l: int| 0 <= l < b1.len() implies #[trigger] a1.contains(b1[l]) by {
            assert(b1[l] == b[l + 1]);
            assert(b[0] < b[l + 1]);
            assert(a.contains(b[l + 1]));
            let k = choose|k: int| 0 <= k < a.len() && a[k] == b[l + 1];
            assert(k != 0);
            assert(a1[k - 1] == a[k]);
        }
        assert forall|k: int, l: int| 0 <= k < l < a1.len() implies #[trigger] a1[k] < #[trigger] a1[l] by {
            assert(a1[k] == a[k + 1] && a1[l] == a[l + 1]);
        }
        assert forall|k: int, l: int| 0 <= k < l < b1.len() implies #[trigger] b1[k] < #[trigger] b1[l] by {
            assert(b1[k] == b[k + 1] && b1[l] == b[l + 1]);
        }
        lemma_increasing_unique(a1, b1);
        assert forall|k: int| 0 <= k < a.len() implies a[k] == b[k] by {
            if k > 0 {
                assert(a[k] == a1[k - 1] && b[k] == b1[k - 1]);
            }
        }
        assert(a =~= b);
    }
}

/// The tips of a snapshot, in increasing order.
pub open spec fn the_tips(cs: Seq<ChainState>) -> Seq<usize> {
    choose|t: Seq<usize>| tips_listed(cs, t)
}

/// The rendered nodes of a snapshot, by increasing slot.
pub open spec fn the_nodes(cs: Seq<ChainState>) -> Seq<usize> {
    choose|n: Seq<usize>| ordered_nodes(cs, n)
}

/// The latest votes of a snapshot, by validator.
pub open spec fn the_last_votes(cs: Seq<ChainState>) -> Seq<LastVote> {
    choose|r: Seq<LastVote>| last_votes_of(r, all_candidates(cs, cs.len() as int))
}

/// The all-votes index of a snapshot, by validator and slot.
pub open spec fn the_index(cs: Seq<ChainState>) -> Seq<VoteRef> {
    choose|r: Seq<VoteRef>| refs_of(r, walk_refs(cs, the_tips(cs), the_tips(cs).len() as int))
}

/// The graph description of a snapshot.
pub open spec fn fork_graph_text(cs: Seq<ChainState>, config: GraphConfig) -> Seq<char> {
    graph_text(cs, the_nodes(cs), the_last_votes(cs), the_index(cs), config)
}

proof fn lemma_tips_unique(cs: Seq<ChainState>, t: Seq<usize>)
    requires
        wf_chains(cs),
        tips_listed(cs, t),
    ensures
        the_tips(cs) == t,
{
    let u = the_tips(cs);
    assert(tips_listed(cs, u));
    let kt = t.map_values(|i: usize| cs[i as int].slot as int);
    let ku = u.map_values(|i: usize| cs[i as int].slot as int);
    assert forall|k: int| 0 <= k < kt.len() implies #[trigger] ku.contains(kt[k]) by {
        assert(is_tip(cs, t[k] as int));
        let l = choose|l: int| 0 <= l < u.len() && u[l] == t[k] as int;
        assert(ku[l] == kt[k]);
    }
    assert forall|l: int| 0 <= l < ku.len() implies #[trigger] kt.contains(ku[l]) by {
        assert(is_tip(cs, u[l] as int));
        let k = choose|k: int| 0 <= k < t.len() && t[k] == u[l] as int;
        assert(ku[l] == kt[k]);
    }
    assert forall|k: int, l: int| 0 <= k < l < kt.len() implies #[trigger] kt[k] < #[trigger] kt[l] by {
        assert(cs[t[k] as int].slot < cs[t[l] as int].slot);
    }
    assert forall|k: int, l: int| 0 <= k < l < ku.len() implies #[trigger] ku[k] < #[trigger] ku[l] by {
        assert(cs[u[k] as int].slot < cs[u[l] as int].slot);
    }
    lemma_increasing_unique(kt, ku);
    assert(t.len() == kt.len() && u.len() == ku.len());
    assert forall|k: int| 0 <= k < t.len() implies t[k] == u[k] by {
        assert(kt[k] == ku[k]);
    }
    assert(t =~= u);
}

proof fn lemma_nodes_unique(cs: Seq<ChainState>, n: Seq<usize>)
    requires
        wf_chains(cs),
        ordered_nodes(cs, n),
    ensures
        the_nodes(cs) == n,
{
    let m = the_nodes(cs);
    assert(ordered_nodes(cs, m));
    let kn = n.map_values(|i: usize| cs[i as int].slot as int);
    let km = m.map_values(|i: usize| cs[i as int].slot as int);
    assert forall|k: int| 0 <= k < kn.len() implies #[trigger] km.contains(kn[k]) by {
        assert(on_fork(cs, n[k] as int));
        let l = choose|l: int| 0 <= l < m.len() && m[l] == n[k] as int;
        assert(km[l] == kn[k]);
    }
    assert forall|l: int| 0 <= l < km.len() implies #[trigger] kn.contains(km[l]) by {
        assert(on_fork(cs, m[l] as int));
        let k = choose|k: int| 0 <= k < n.len() && n[k] == m[l] as int;
        assert(km[l] == kn[k]);
    }
    assert forall|k: int, l: int| 0 <= k < l < kn.len() implies #[trigger] kn[k] < #[trigger] kn[l] by {
        assert(cs[n[k] as int].slot < cs[n[l] as int].slot);
    }
    assert forall|k: int, l: int| 0 <= k < l < km.len() implies #[trigger] km[k] < #[trigger] km[l] by {
        assert(cs[m[k] as int].slot < cs[m[l] as int].slot);
    }
    lemma_increasing_unique(kn, km);
    assert forall|k: int| 0 <= k < n.len() implies n[k] == m[k] by {
        assert(kn[k] == km[k]);
    }
    assert(n =~= m);
}

proof fn lemma_last_votes_unique(cs: Seq<ChainState>, r: Seq<LastVote>)
    requires
        last_votes_of(r, all_candidates(cs, cs.len() as int)),
    ensures
        the_last_votes(cs) == r,
{
    let s = all_candidates(cs, cs.len() as int);
    let q = the_last_votes(cs);
    assert(last_votes_of(q, s));
    let kr = r.map_values(|v: LastVote| v.node as int);
    let kq = q.map_values(|v: LastVote| v.node as int);
    assert forall|k: int| 0 <= k < kr.len() implies #[trigger] kq.contains(kr[k]) by {
        assert(best(s, r[k].node).is_some());
        let l = choose|l: int| 0 <= l < q.len() && q[l].node == r[k].node;
        assert(kq[l] == kr[k]);
    }
    assert forall|l: int| 0 <= l < kq.len() implies #[trigger] kr.contains(kq[l]) by {
        assert(best(s, q[l].node).is_some());
        let k = choose|k: int| 0 <= k < r.len() && r[k].node == q[l].node;
        assert(kq[l] == kr[k]);
    }
    assert forall|k: int, l: int| 0 <= k < l < kr.len() implies #[trigger] kr[k] < #[trigger] kr[l] by {
        assert(r[k].node < r[l].node);
    }
    assert forall|k: int, l: int| 0 <= k < l < kq.len() implies #[trigger] kq[k] < #[trigger] kq[l] by {
        assert(q[k].node < q[l].node);
    }
    lemma_increasing_unique(kr, kq);
    assert forall|k: int| 0 <= k < r.len() implies r[k] == q[k] by {
        assert(kr[k] == kq[k]);
        assert(best(s, r[k].node) == Some(r[k]));
        assert(best(s, q[k].node) == Some(q[k]));
    }
    assert(r =~= q);
}

proof fn lemma_index_unique(cs: Seq<ChainState>, r: Seq<VoteRef>)
    requires
        refs_of(r, walk_refs(cs, the_tips(cs), the_tips(cs).len() as int)),
    ensures
        the_index(cs) == r,
{
    let s = walk_refs(cs, the_tips(cs), the_tips(cs).len() as int);
    let q = the_index(cs);
    assert(refs_of(q, s));
    let kr = r.map_values(|e: VoteRef| ref_key(e));
    let kq = q.map_values(|e: VoteRef| ref_key(e));
    assert forall|k: int| 0 <= k < kr.len() implies #[trigger] kq.contains(kr[k]) by {
        assert(first_ref(s, r[k].node, r[k].slot).is_some());
        let l = choose|l: int| 0 <= l < q.len() && q[l].node == r[k].node && q[l].slot == r[k].slot;
        assert(kq[l] == kr[k]);
    }
    assert forall|l: int| 0 <= l < kq.len() implies #[trigger] kr.contains(kq[l]) by {
        assert(first_ref(s, q[l].node, q[l].slot).is_some());
        let k = choose|k: int| 0 <= k < r.len() && r[k].node == q[l].node && r[k].slot == q[l].slot;
        assert(kq[l] == kr[k]);
    }
    assert forall|k: int, l: int| 0 <= k < l < kr.len() implies #[trigger] kr[k] < #[trigger] kr[l] by {
        assert(crate::all_votes::ref_lt(r[k], r[l]));
        lemma_pair_key(r[k], r[l]);
    }
    assert forall|k: int, l: int| 0 <= k < l < kq.len() implies #[trigger] kq[k] < #[trigger] kq[l] by {
        assert(crate::all_votes::ref_lt(q[k], q[l]));
        lemma_pair_key(q[k], q[l]);
    }
    lemma_increasing_unique(kr, kq);
    assert forall|k: int| 0 <= k < r.len() implies r[k] == q[k] by {
        assert(kr[k] == kq[k]);
        lemma_pair_key(r[k], q[k]);
        lemma_pair_key(q[k], r[k]);
        assert(first_ref(s, r[k].node, r[k].slot) == Some(r[k]));
        assert(first_ref(s, q[k].node, q[k].slot) == Some(q[k]));
    }
    assert(r =~= q);
}

/// The position of a vote in the order of the index, as one integer.
pub open spec fn ref_key(e: VoteRef) -> int {
    (e.node as int) * 0x1_0000_0000_0000_0000 + (e.slot as int)
}

proof fn lemma_pair_key(a: VoteRef, b: VoteRef)
    ensures
        crate::all_votes::ref_lt(a, b) ==> ref_key(a) < ref_key(b),
{
    if a.node < b.node {
        let x = a.node as int;
        let y = b.node as int;
        assert(x * 0x1_0000_0000_0000_0000 + 0x1_0000_0000_0000_0000 <= y * 0x1_0000_0000_0000_0000)
            by (nonlinear_arith)
            requires
                x < y,
        {}
    }
}


/// The graph description of the forks of a snapshot: its rendered chain
/// states and edges, each validator's latest vote, the votes that point
/// outside the rendered topology and, as `config` asks, the per-validator
/// annotations and every vote seen on the walks.
///
/// Fails with `StakeOverflow` where a chain state's total stake, or the stake
/// behind all latest votes, does not fit in 64 bits, and with
/// `InconsistentTotalStake` where a validator's latest-vote candidates
/// disagree on the total stake.
pub fn graph_forks(chains: &Vec<ChainState>, config: &GraphConfig) -> (r: Result<String, GraphError>)
    requires
        wf_chains(chains@),
    ensures
        r is Ok <==> stakes_fit(chains@) && consistent(all_candidates(chains@, chains.len() as int))
            && lv_stake(the_last_votes(chains@)) <= u64::MAX,
        r is Ok ==> r.unwrap()@ == fork_graph_text(chains@, *config),
        !stakes_fit(chains@) ==> r == Err::<String, GraphError>(GraphError::StakeOverflow),
        stakes_fit(chains@) && !consistent(all_candidates(chains@, chains.len() as int)) ==> (r matches Err(GraphError::InconsistentTotalStake(v))
            && disagrees(all_candidates(chains@, chains.len() as int), v)),
        stakes_fit(chains@) && consistent(all_candidates(chains@, chains.len() as int))
            && lv_stake(the_last_votes(chains@)) > u64::MAX ==> r == Err::<String, GraphError>(GraphError::StakeOverflow),
{
    let ghost cs = chains@;
    let lvs = match last_votes(chains) {
        Ok(l) => l,
        Err(e) => return Err(e),
    };
    proof {
        lemma_last_votes_unique(cs, lvs@);
    }
    if !stake_fits(&lvs) {
        return Err(GraphError::StakeOverflow);
    }
    let tips = fork_tips(chains);
    let nodes = fork_nodes(chains, &tips);
    let index = collect_all_votes(chains, &tips);
    proof {
        lemma_tips_unique(cs, tips@);
        lemma_nodes_unique(cs, nodes@);
        lemma_index_unique(cs, index@);
        lemma_last_votes_locate(cs, lvs@);
    }
    Ok(assemble_graph(chains, &tips, &nodes, &lvs, &index, config))
}

/// The description does not depend on how the stages were computed: any tips,
/// rendered nodes, latest votes and all-votes index that meet the stages'
/// contracts give the same text, so two runs on the same input agree byte for byte.
pub proof fn lemma_graph_deterministic(
    cs: Seq<ChainState>,
    tips: Seq<usize>,
    nodes: Seq<usize>,
    lvs: Seq<LastVote>,
    refs: Seq<VoteRef>,
    config: GraphConfig,
)
    requires
        wf_chains(cs),
        tips_listed(cs, tips),
        ordered_nodes(cs, nodes),
        last_votes_of(lvs, all_candidates(cs, cs.len() as int)),
        refs_of(refs, walk_refs(cs, tips, tips.len() as int)),
    ensures
        graph_text(cs, nodes, lvs, refs, config) == fork_graph_text(cs, config),
{
    lemma_tips_unique(cs, tips);
    lemma_nodes_unique(cs, nodes);
    lemma_last_votes_unique(cs, lvs);
    lemma_index_unique(cs, refs);
}

} // verus!
